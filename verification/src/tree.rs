//! Trees of pairs with boolean leaves.

use vstd::prelude::*;
use crate::arena::Arena;
use crate::heap::{AllocError, Heap, Outcome};
use crate::select::{decode_bool, pair_fst, pair_snd};
use crate::term::Term;

verus! {

broadcast use crate::heap::group_leads;

/// What is left to do: to collect the leaves of a node, or those of the
/// second part of a node.
#[derive(Clone, Copy)]
pub enum Task {
    Visit(u32),
    Second(u32),
}

impl Task {
    pub open spec fn node(self) -> u32 {
        match self {
            Task::Visit(n) => n,
            Task::Second(n) => n,
        }
    }
}

/// A leaf as a byte.
pub open spec fn leaf_byte(b: bool) -> u8 {
    if b {
        1
    } else {
        0
    }
}

impl Heap {
    pub open spec fn tasks_live(self, tasks: Seq<Task>) -> bool {
        forall|k: int| 0 <= k < tasks.len() ==> self.live((#[trigger] tasks[k]).node())
    }

    /// Does the tasks, the last one first: appends the leaves from left to
    /// right, until there are `max` or the fuel is used up.
    pub open spec fn collect(self, tasks: Seq<Task>, fuel: nat, leaves: Seq<u8>, max: nat) -> Outcome<
        (Seq<u8>, nat),
    >
        decreases self.room(), tasks.len(),
        when self.wf() && self.tasks_live(tasks)
    {
        if tasks.len() == 0 {
            Ok((self, (leaves, fuel)))
        } else {
            let rest = tasks.drop_last();
            let n = tasks.last().node();
            proof {
                lemma_task(self, n, fuel);
            }
            match tasks.last() {
                Task::Visit(_) => if leaves.len() >= max || fuel == 0 {
                    self.collect(rest, fuel, leaves, max)
                } else {
                    match self.decode_bool(n, crate::image::at_most(fuel, 100_000)) {
                        Err(e) => Err(e),
                        Ok((h1, Some(b))) => h1.collect(
                            rest,
                            fuel,
                            leaves.push(leaf_byte(b)),
                            max,
                        ),
                        Ok((h1, None)) => match h1.pair_fst(n, fuel) {
                            Err(e) => Err(e),
                            Ok((h2, (fst, f))) => h2.collect(
                                rest.push(Task::Second(n)).push(Task::Visit(fst)),
                                f,
                                leaves,
                                max,
                            ),
                        },
                    }
                },
                Task::Second(_) => if leaves.len() >= max {
                    self.collect(rest, fuel, leaves, max)
                } else {
                    match self.pair_snd(n, fuel) {
                        Err(e) => Err(e),
                        Ok((h1, (snd, f))) => h1.collect(
                            rest.push(Task::Visit(snd)),
                            f,
                            leaves,
                            max,
                        ),
                    }
                },
            }
        }
    }
}

/// A task takes room, and leaves the nodes live.
pub proof fn lemma_task(h: Heap, n: u32, fuel: nat)
    requires
        h.wf(),
        h.live(n),
    ensures
        h.decode_bool(n, crate::image::at_most(fuel, 100_000)) matches Ok((h1, _)) ==> h.leads_to(
            h1,
        ) && h1.room() < h.room() && (h1.pair_fst(n, fuel) matches Ok((h2, (r, _)))
            ==> h1.leads_to(h2) && h2.room() < h1.room() && h2.live(r)),
        h.pair_snd(n, fuel) matches Ok((h1, (r, _))) ==> h.leads_to(h1) && h1.room() < h.room()
            && h1.live(r),
{
    let f = crate::image::at_most(fuel, 100_000);
    crate::select::lemma_decode_bool(h, n, f);
    if let Ok((h1, _)) = h.decode_bool(n, f) {
        crate::select::lemma_pair_fst(h1, n, fuel);
    }
    crate::select::lemma_pair_snd(h, n, fuel);
}

/// A tree with boolean leaves.
pub enum Tree {
    Leaf(bool),
    Fork(Box<Tree>, Box<Tree>),
}

impl Tree {
    /// The tree as an expression.
    pub open spec fn term(self) -> Term
        decreases self,
    {
        match self {
            Tree::Leaf(b) => Term::boolean(b),
            Tree::Fork(l, r) => Term::pair(l.term(), r.term()),
        }
    }

    /// The leaves from left to right.
    pub open spec fn leaves(self) -> Seq<u8>
        decreases self,
    {
        match self {
            Tree::Leaf(b) => seq![leaf_byte(b)],
            Tree::Fork(l, r) => l.leaves() + r.leaves(),
        }
    }
}

impl Term {
    /// The expression is a tree: a boolean for a leaf, and no boolean for a
    /// fork, with the branches as its parts. Each takes `b` reductions at most.
    pub open spec fn is_tree(self, t: Tree, b: nat) -> bool
        decreases t,
    {
        match t {
            Tree::Leaf(v) => self.says(v, b),
            Tree::Fork(l, r) => self.is_no_bool(b) && exists|x: Term, y: Term| #[trigger]
                self.has_parts(x, y, b) && x.is_tree(*l, b) && y.is_tree(*r, b),
        }
    }
}

/// A tree has a leaf.
proof fn lemma_leaves(t: Tree)
    ensures
        t.leaves().len() >= 1,
    decreases t,
{
    if let Tree::Fork(l, _) = t {
        lemma_leaves(*l);
    }
}

/// A tree that was made is the tree.
pub proof fn lemma_tree_means(t: Tree)
    ensures
        t.term().is_tree(t, 9),
        t.term().step() is None,
    decreases t,
{
    match t {
        Tree::Leaf(v) => crate::meaning::lemma_boolean_says(v),
        Tree::Fork(l, r) => {
            lemma_tree_means(*l);
            lemma_tree_means(*r);
            crate::meaning::lemma_pair_means(l.term(), r.term());
            crate::laws::lemma_values_normal(true, l.term(), r.term());
            assert(t.term().has_parts(l.term(), r.term(), 9));
        },
    }
}

/// Reduction does not change the tree that an expression is.
pub proof fn lemma_is_tree(t: Term, u: Term, tree: Tree, b: nat)
    requires
        t.is_tree(tree, b),
        t.reduces(u),
    ensures
        u.is_tree(tree, b),
    decreases tree,
{
    match tree {
        Tree::Leaf(v) => crate::meaning::lemma_says(t, u, v, b),
        Tree::Fork(l, r) => {
            let (x, y) = choose|x: Term, y: Term| #[trigger]
                t.has_parts(x, y, b) && x.is_tree(*l, b) && y.is_tree(*r, b);
            crate::meaning::lemma_is_no_bool(t, u, b);
            let (x1, y1) = crate::meaning::lemma_has_parts(t, u, x, y, b);
            lemma_is_tree(x, x1, *l, b);
            lemma_is_tree(y, y1, *r, b);
            assert(u.has_parts(x1, y1, b));
        },
    }
}

/// What the branches of a fork take.
proof fn lemma_tree_need(m: nat, n: nat, b: nat)
    ensures
        2 * b * (m + n) == 2 * b * m + 2 * b * n,
        (17 + 12 * b) * (m + n) == (17 + 12 * b) * m + (17 + 12 * b) * n,
        m >= 1 ==> 2 * b * m >= 2 * b && (17 + 12 * b) * m >= 17 + 12 * b,
        n >= 1 ==> 2 * b * n >= 2 * b && (17 + 12 * b) * n >= 17 + 12 * b,
{
    let c = 17 + 12 * b;
    assert(2 * b * (m + n) == 2 * b * m + 2 * b * n && c * (m + n) == c * m + c * n && (m >= 1
        ==> 2 * b * m >= 2 * b && c * m >= c) && (n >= 1 ==> 2 * b * n >= 2 * b && c * n >= c))
        by (nonlinear_arith)
        requires
            b >= 0,
            c >= 0,
    ;
}

/// A visit to a tree appends its leaves and goes on with the other tasks.
proof fn lemma_collect_tree(
    h: Heap,
    rest: Seq<Task>,
    node: u32,
    u: Term,
    t: Tree,
    b: nat,
    fuel: nat,
    leaves: Seq<u8>,
    max: nat,
) -> (r: (Heap, nat))
    requires
        h.wf(),
        h.tasks_live(rest),
        h.live(node),
        u.reduces(h.term(node)),
        u.is_tree(t, b),
        b < 100_000,
        leaves.len() <= max,
        fuel > 2 * b * t.leaves().len(),
        h.room() >= (17 + 12 * b) * t.leaves().len(),
    ensures
        h.leads_to(r.0),
        fuel + 2 * b <= r.1 + 2 * b * t.leaves().len(),
        r.1 <= fuel,
        r.0.room() + (17 + 12 * b) * t.leaves().len() >= h.room() + 13 + 9 * b,
        h.collect(rest.push(Task::Visit(node)), fuel, leaves, max) == r.0.collect(
            rest,
            r.1,
            crate::lists::first(leaves + t.leaves(), max),
            max,
        ),
    decreases t,
{
    let f0 = crate::image::at_most(fuel, 100_000);
    let tasks = rest.push(Task::Visit(node));
    assert(tasks.drop_last() =~= rest);
    assert(h.tasks_live(tasks));
    lemma_leaves(t);
    lemma_tree_need(t.leaves().len(), 0, b);
    crate::heap::lemma_leads_refl(h);
    if leaves.len() >= max {
        assert(crate::lists::first(leaves + t.leaves(), max) =~= leaves);
        (h, fuel)
    } else {
        match t {
            Tree::Leaf(v) => {
                lemma_tree_need(1, 0, b);
                assert(2 * b * 1 == 2 * b && (17 + 12 * b) * 1 == 17 + 12 * b);
                crate::meaning::lemma_read_bool(h, node, f0, u, v, b);
                let (h1, _) = h.decode_bool(node, f0)->Ok_0;
                assert(crate::lists::first(leaves + t.leaves(), max) =~= leaves.push(leaf_byte(v)));
                (h1, fuel)
            },
            Tree::Fork(l, r) => {
                lemma_leaves(*l);
                lemma_leaves(*r);
                lemma_tree_need(l.leaves().len(), r.leaves().len(), b);
                let (x, y) = choose|x: Term, y: Term| #[trigger]
                    u.has_parts(x, y, b) && x.is_tree(*l, b) && y.is_tree(*r, b);
                crate::meaning::lemma_read_no_bool(h, node, f0, u, b);
                let (h1, _) = h.decode_bool(node, f0)->Ok_0;
                crate::laws::lemma_still(h, h1, node, u);
                crate::meaning::lemma_read_fst(h1, node, fuel, u, x, y, b);
                crate::select::lemma_pair_fst(h1, node, fuel);
                let (h2, (fst, f2)) = h1.pair_fst(node, fuel)->Ok_0;
                let rest2 = rest.push(Task::Second(node));
                assert(h2.tasks_live(rest2)) by {
                    assert forall|k: int| 0 <= k < rest2.len() implies h2.live(
                        (#[trigger] rest2[k]).node(),
                    ) by {
                        if k < rest.len() {
                            assert(h.live(rest[k].node()));
                        }
                    }
                }
                let (h3, f3) = lemma_collect_tree(h2, rest2, fst, x, *l, b, f2, leaves, max);
                let leaves3 = crate::lists::first(leaves + l.leaves(), max);
                crate::laws::lemma_still(h1, h3, node, u);
                assert(rest2.drop_last() =~= rest);
                assert(h3.tasks_live(rest2)) by {
                    assert forall|k: int| 0 <= k < rest2.len() implies h3.live(
                        (#[trigger] rest2[k]).node(),
                    ) by {
                        assert(h2.live(rest2[k].node()));
                    }
                }
                assert(leaves + t.leaves() =~= (leaves + l.leaves()) + r.leaves());
                if leaves3.len() >= max {
                    assert(crate::lists::first(leaves + t.leaves(), max) =~= leaves3);
                    (h3, f3)
                } else {
                    crate::meaning::lemma_read_snd(h3, node, f3, u, x, y, b);
                    crate::select::lemma_pair_snd(h3, node, f3);
                    let (h4, (snd, f4)) = h3.pair_snd(node, f3)->Ok_0;
                    assert(h4.tasks_live(rest)) by {
                        assert forall|k: int| 0 <= k < rest.len() implies h4.live(
                            (#[trigger] rest[k]).node(),
                        ) by {
                            assert(h.live(rest[k].node()));
                        }
                    }
                    let (h5, f5) = lemma_collect_tree(h4, rest, snd, y, *r, b, f4, leaves3, max);
                    assert(leaves3 + r.leaves() =~= leaves + t.leaves());
                    (h5, f5)
                }
            },
        }
    }
}

/// Collecting the leaves of a tree gives them from left to right, as many as there
/// may be, however the expression computes it: given fuel and room for its parts,
/// each of which takes `b` reductions at most. A node is given 100 000 to be a
/// boolean.
pub proof fn lemma_collect(h: Heap, node: u32, u: Term, t: Tree, b: nat, fuel: nat, max: nat)
    requires
        h.wf(),
        h.live(node),
        u.reduces(h.term(node)),
        u.is_tree(t, b),
        b < 100_000,
        fuel > 2 * b * t.leaves().len(),
        h.room() >= (17 + 12 * b) * t.leaves().len(),
    ensures
        h.collect(seq![Task::Visit(node)], fuel, Seq::empty(), max) matches Ok((h1, (leaves, _)))
            && (t.leaves().len() <= max ==> leaves == t.leaves()) && (t.leaves().len() > max
            ==> leaves == t.leaves().take(max as int)),
{
    let (h1, f1) = lemma_collect_tree(
        h,
        Seq::empty(),
        node,
        u,
        t,
        b,
        fuel,
        Seq::empty(),
        max,
    );
    assert(Seq::<Task>::empty().push(Task::Visit(node)) =~= seq![Task::Visit(node)]);
    assert(Seq::<u8>::empty() + t.leaves() =~= t.leaves());
}

/// Collects the boolean leaves of a tree of pairs from left to right, a one
/// for true, until there are `max_leaves` or the fuel is used up.
pub fn collect_bool_leaves(
    arena: &mut Arena,
    node: u32,
    fuel: &mut u64,
    leaves: &mut Vec<u8>,
    max_leaves: usize,
) -> (r: Result<(), AllocError>)
    requires
        old(arena)@.wf(),
        old(arena)@.live(node),
    ensures
        match r {
            Ok(_) => old(arena)@.collect(
                seq![Task::Visit(node)],
                *old(fuel) as nat,
                old(leaves)@,
                max_leaves as nat,
            ) == Ok::<(Heap, (Seq<u8>, nat)), AllocError>(
                (final(arena)@, (final(leaves)@, *final(fuel) as nat)),
            ),
            Err(e) => old(arena)@.collect(
                seq![Task::Visit(node)],
                *old(fuel) as nat,
                old(leaves)@,
                max_leaves as nat,
            ) == Err::<(Heap, (Seq<u8>, nat)), AllocError>(e),
        },
        old(arena)@.leads_to(final(arena)@),
        *final(fuel) <= *old(fuel),
{
    let ghost goal = arena@.collect(
        seq![Task::Visit(node)],
        *fuel as nat,
        leaves@,
        max_leaves as nat,
    );
    let mut tasks: Vec<Task> = Vec::new();
    tasks.push(Task::Visit(node));
    proof {
        crate::heap::lemma_leads_refl(arena@);
        assert(tasks@ =~= seq![Task::Visit(node)]);
    }
    while tasks.len() > 0
        invariant
            arena@.wf(),
            arena@.tasks_live(tasks@),
            old(arena)@.leads_to(arena@),
            *fuel <= *old(fuel),
            goal == old(arena)@.collect(
                seq![Task::Visit(node)],
                *old(fuel) as nat,
                old(leaves)@,
                max_leaves as nat,
            ),
            goal == arena@.collect(tasks@, *fuel as nat, leaves@, max_leaves as nat),
        decreases arena@.room(), tasks@.len(),
    {
        let ghost h = arena@;
        let ghost all = tasks@;
        let task = tasks.pop().unwrap();
        let ghost rest = tasks@;
        proof {
            assert(rest =~= all.drop_last());
            assert(all[all.len() - 1] == task);
            lemma_task(h, task.node(), *fuel as nat);
            assert forall|k: int| 0 <= k < rest.len() implies h.live(
                (#[trigger] rest[k]).node(),
            ) by {
                assert(all[k] == rest[k]);
            }
        }
        match task {
            Task::Visit(n) => {
                if leaves.len() < max_leaves && *fuel > 0 {
                    let limit: u64 = if *fuel < 100_000 {
                        *fuel
                    } else {
                        100_000
                    };
                    match decode_bool(arena, n, limit)? {
                        Some(b) => {
                            leaves.push(
                                if b {
                                    1
                                } else {
                                    0
                                },
                            );
                        },
                        None => {
                            let fst: u32 = pair_fst(arena, n, fuel)?;
                            tasks.push(Task::Second(n));
                            tasks.push(Task::Visit(fst));
                        },
                    }
                }
            },
            Task::Second(n) => {
                if leaves.len() < max_leaves {
                    let snd: u32 = pair_snd(arena, n, fuel)?;
                    tasks.push(Task::Visit(snd));
                }
            },
        }
        proof {
            assert forall|k: int| 0 <= k < tasks@.len() implies arena@.live(
                (#[trigger] tasks@[k]).node(),
            ) by {
                if k < rest.len() {
                    assert(h.live(rest[k].node()));
                }
            }
        }
    }
    Ok(())
}

impl Tree {
    /// The leaves from left to right, as booleans.
    pub open spec fn bits(self) -> Seq<bool>
        decreases self,
    {
        match self {
            Tree::Leaf(b) => seq![b],
            Tree::Fork(l, r) => l.bits() + r.bits(),
        }
    }
}

/// A leaf that is true is a one, and one that is false a zero.
pub proof fn lemma_leaf_bytes(t: Tree)
    ensures
        t.leaves().len() == t.bits().len(),
        forall|k: int|
            0 <= k < t.bits().len() ==> #[trigger] t.leaves()[k] == if t.bits()[k] {
                1u8
            } else {
                0u8
            },
    decreases t,
{
    if let Tree::Fork(l, r) = t {
        lemma_leaf_bytes(*l);
        lemma_leaf_bytes(*r);
    }
}

} // verus!
