//! Mark-sweep garbage collection.

use vstd::prelude::*;
use crate::arena::Arena;
use crate::bitmap::Bitmap;
use crate::graph::Graph;
use crate::heap::{AllocError, ARENA_HARD_LIMIT, Heap};
use crate::node::NIL;

verus! {

broadcast use crate::heap::group_leads;

impl Graph {
    /// The node `i` points at the node `j`.
    pub open spec fn edge(self, i: u32, j: u32) -> bool {
        &&& self.at(i).a == j || self.at(i).b == j
        &&& j != NIL
        &&& j < self.nodes.len()
    }

    /// Each node points at the next.
    pub open spec fn path(self, p: Seq<u32>) -> bool {
        &&& p.len() > 0
        &&& p[0] < self.nodes.len()
        &&& forall|k: int| 0 <= k < p.len() - 1 ==> #[trigger] self.edge(p[k], p[k + 1])
    }

    /// A path leads from one of the roots to `i`.
    pub open spec fn reachable(self, roots: Seq<u32>, i: u32) -> bool {
        exists|p: Seq<u32>| #[trigger] self.path(p) && roots.contains(p[0]) && p.last() == i
    }

    /// The nodes below `n` that no path leads to, in order.
    pub open spec fn garbage(self, roots: Seq<u32>, n: nat) -> Seq<u32>
        decreases n,
    {
        if n == 0 {
            Seq::empty()
        } else if self.reachable(roots, (n - 1) as u32) {
            self.garbage(roots, (n - 1) as nat)
        } else {
            self.garbage(roots, (n - 1) as nat).push((n - 1) as u32)
        }
    }
}

impl Heap {
    /// The roots that are nodes at all are live.
    pub open spec fn live_roots(self, roots: Seq<u32>) -> bool {
        forall|k: int|
            0 <= k < roots.len() && roots[k] < self.graph.nodes.len() ==> self.live(
                #[trigger] roots[k],
            )
    }

    /// The arena after a collection that keeps `roots` and its own roots: what
    /// they do not lead to is free.
    pub open spec fn gc(self, roots: Seq<u32>) -> Heap {
        Heap {
            graph: Graph {
                nodes: self.graph.nodes,
                free: self.graph.garbage(roots + self.roots, self.graph.nodes.len()),
            },
            ..self
        }
    }
}

/// The garbage is exactly what no path leads to, in ascending order.
pub proof fn lemma_garbage(g: Graph, roots: Seq<u32>, n: nat)
    requires
        n <= u32::MAX,
    ensures
        g.garbage(roots, n).len() <= n,
        forall|i: u32| #[trigger]
            g.garbage(roots, n).contains(i) <==> i < n && !g.reachable(roots, i),
        forall|j: int, k: int|
            0 <= j < k < g.garbage(roots, n).len() ==> g.garbage(roots, n)[j] < g.garbage(
                roots,
                n,
            )[k],
    decreases n,
{
    let s = g.garbage(roots, n);
    if n > 0 {
        let t = g.garbage(roots, (n - 1) as nat);
        lemma_garbage(g, roots, (n - 1) as nat);
        let m = (n - 1) as u32;
        if !g.reachable(roots, m) {
            assert(s == t.push(m));
            assert forall|i: u32| #[trigger] s.contains(i) <==> i < n && !g.reachable(
                roots,
                i,
            ) by {
                if s.contains(i) {
                    let k = choose|k: int| 0 <= k < s.len() && s[k] == i;
                    if k < t.len() {
                        assert(t[k] == i);
                        assert(t.contains(i));
                    }
                }
                if i < n && !g.reachable(roots, i) {
                    if i == m {
                        assert(s[s.len() - 1] == m);
                    } else {
                        assert(t.contains(i));
                        let k = choose|k: int| 0 <= k < t.len() && t[k] == i;
                        assert(s[k] == i);
                    }
                }
            }
            assert forall|j: int, k: int| 0 <= j < k < s.len() implies s[j] < s[k] by {
                if k == t.len() {
                    assert(t.contains(t[j]));
                }
            }
        }
    } else {
        assert(s =~= Seq::empty());
    }
}

/// One more step along an edge.
proof fn lemma_reach_step(g: Graph, roots: Seq<u32>, i: u32, j: u32)
    requires
        g.reachable(roots, i),
        g.edge(i, j),
    ensures
        g.reachable(roots, j),
{
    let p = choose|p: Seq<u32>| #[trigger] g.path(p) && roots.contains(p[0]) && p.last() == i;
    let q = p.push(j);
    assert forall|k: int| 0 <= k < q.len() - 1 implies #[trigger] g.edge(q[k], q[k + 1]) by {
        if k < p.len() - 1 {
            assert(g.edge(p[k], p[k + 1]));
        }
    }
    assert(g.path(q));
    assert(q[0] == p[0]);
}

/// A root reaches itself.
proof fn lemma_reach_root(g: Graph, roots: Seq<u32>, i: u32)
    requires
        roots.contains(i),
        i < g.nodes.len(),
    ensures
        g.reachable(roots, i),
{
    let p = seq![i];
    assert(g.path(p));
}

/// What holds of the roots, and of every node that a node of which it holds
/// points at, holds of all that is reachable.
proof fn lemma_reach_closed(g: Graph, roots: Seq<u32>, marks: Seq<bool>, p: Seq<u32>)
    requires
        g.path(p),
        roots.contains(p[0]),
        marks.len() == g.nodes.len(),
        forall|i: u32| i < g.nodes.len() && #[trigger] roots.contains(i) ==> marks[i as int],
        forall|i: u32, j: u32|
            i < g.nodes.len() && marks[i as int] && #[trigger] g.edge(i, j) ==> marks[j as int],
    ensures
        p.last() < g.nodes.len(),
        marks[p.last() as int],
    decreases p.len(),
{
    if p.len() > 1 {
        let q = p.drop_last();
        assert forall|k: int| 0 <= k < q.len() - 1 implies #[trigger] g.edge(q[k], q[k + 1]) by {
            assert(g.edge(p[k], p[k + 1]));
        }
        lemma_reach_closed(g, roots, marks, q);
        assert(g.edge(p[p.len() - 2], p[p.len() - 2 + 1]));
    }
}

/// What is reachable from live nodes is live.
proof fn lemma_reach_live(h: Heap, roots: Seq<u32>, i: u32)
    requires
        h.wf(),
        forall|j: u32| j < h.graph.nodes.len() && #[trigger] roots.contains(j) ==> h.live(j),
        h.graph.reachable(roots, i),
    ensures
        h.live(i),
{
    let g = h.graph;
    let marks = Seq::new(g.nodes.len(), |k: int| g.live(k as u32));
    let p = choose|p: Seq<u32>| #[trigger] g.path(p) && roots.contains(p[0]) && p.last() == i;
    assert forall|a: u32, b: u32|
        a < g.nodes.len() && marks[a as int] && #[trigger] g.edge(a, b) implies marks[b as int] by {
        assert(g.live(a));
    }
    lemma_reach_closed(g, roots, marks, p);
}

/// A collection keeps the arena well formed; exactly the reachable nodes stay
/// live, and they stand for what they stood for.
pub proof fn lemma_gc(h: Heap, roots: Seq<u32>)
    requires
        h.wf(),
        h.live_roots(roots),
    ensures
        h.gc(roots).wf(),
        forall|i: u32| #[trigger]
            h.gc(roots).live(i) <==> i < h.graph.nodes.len() && h.graph.reachable(
                roots + h.roots,
                i,
            ),
        forall|i: u32| #[trigger]
            h.gc(roots).live(i) ==> h.live(i) && h.gc(roots).at(i) == h.at(i) && h.gc(roots).term(i)
                == h.term(i) && h.gc(roots).follow(i) == h.follow(i),
        h.gc(roots).live_roots(roots),
{
    let g = h.graph;
    let all = roots + h.roots;
    let h1 = h.gc(roots);
    let g1 = h1.graph;
    lemma_garbage(g, all, g.nodes.len());
    assert forall|j: u32| j < g.nodes.len() && #[trigger] all.contains(j) implies h.live(j) by {
        let k = choose|k: int| 0 <= k < all.len() && all[k] == j;
        if k >= roots.len() {
            assert(h.roots[k - roots.len()] == j);
        } else {
            assert(roots[k] == j);
        }
    }
    assert forall|i: u32| #[trigger] g1.live(i) implies h.live(i) by {
        lemma_reach_live(h, all, i);
    }
    assert forall|i: u32| #[trigger] g1.live(i) implies {
        &&& g1.at(i).has_a() ==> g1.live(g1.at(i).a)
        &&& g1.at(i).has_b() ==> g1.live(g1.at(i).b)
    } by {
        assert(h.live(i));
        if g.at(i).has_a() {
            assert(g.live(g.at(i).a));
            assert(g.edge(i, g.at(i).a));
            lemma_reach_step(g, all, i, g.at(i).a);
        }
        if g.at(i).has_b() {
            assert(g.live(g.at(i).b));
            assert(g.edge(i, g.at(i).b));
            lemma_reach_step(g, all, i, g.at(i).b);
        }
    }
    let rank = g.ranking();
    assert(g.ranked(rank));
    assert(g1.ranked(rank)) by {
        assert forall|i: u32| #[trigger] g1.live(i) implies {
            &&& g1.at(i).has_a() ==> rank[g1.at(i).a as int] < rank[i as int]
            &&& g1.at(i).has_b() ==> rank[g1.at(i).b as int] < rank[i as int]
        } by {
            assert(h.live(i));
        }
    }
    assert(g1.free.no_duplicates());
    assert forall|k: int| 0 <= k < g1.free.len() implies #[trigger] g1.free[k]
        < g1.nodes.len() by {
        assert(g1.free.contains(g1.free[k]));
    }
    assert forall|j: u32| all.contains(j) implies !g1.free.contains(j) by {
        if j < g.nodes.len() {
            lemma_reach_root(g, all, j);
        }
    }
    assert forall|k: int| 0 <= k < h1.roots.len() implies !g1.free.contains(
        #[trigger] h1.roots[k],
    ) by {
        assert(all[k + roots.len()] == h1.roots[k]);
        assert(all.contains(h1.roots[k]));
    }
    assert forall|k: int| 0 <= k < roots.len() && roots[k] < g.nodes.len() implies h1.live(
        #[trigger] roots[k],
    ) by {
        assert(all[k] == roots[k]);
        assert(all.contains(roots[k]));
    }
    assert forall|c: Option<u32>| #[trigger] h.pinned(c) implies h1.pinned(c) by {
        if let Some(i) = c {
            let k = choose|k: int| 0 <= k < h.roots.len() && h.roots[k] == i;
            assert(!g1.free.contains(h1.roots[k]));
        }
    }
    assert forall|p: int| 0 <= p < 5 implies h1.pinned(#[trigger] h1.cached.sels[p]) && (
    h1.cached.sels[p] matches Some(s) ==> h1.graph.is_sel(s, p)) by {
        assert(h.pinned(h.cached.sels[p]));
        if let Some(s) = h.cached.sels[p] {
            lemma_nodes_wrapped(g, g1, s, p as nat, (4 - p) as nat);
        }
    }
    assert(h1.wf());
    assert forall|i: u32| #[trigger] h1.live(i) implies h1.term(i) == h.term(i) && h1.follow(i)
        == h.follow(i) by {
        assert forall|j: u32| #[trigger] g1.live(j) implies g.live(j) && g.at(j) == g1.at(j) by {}
        crate::graph::lemma_frame(g1, g, i, rank);
    }
}

/// The shape of a selector is a matter of the nodes alone.
proof fn lemma_nodes_core(g: Graph, g1: Graph, i: u32, n: nat)
    requires
        g.nodes == g1.nodes,
        g.is_core(i, n),
    ensures
        g1.is_core(i, n),
    decreases n,
{
    if n > 0 {
        lemma_nodes_core(g, g1, g.at(i).b, (n - 1) as nat);
    }
}

proof fn lemma_nodes_wrapped(g: Graph, g1: Graph, i: u32, n: nat, m: nat)
    requires
        g.nodes == g1.nodes,
        g.is_wrapped_core(i, n, m),
    ensures
        g1.is_wrapped_core(i, n, m),
    decreases n,
{
    if n > 0 {
        lemma_nodes_wrapped(g, g1, g.at(i).a, (n - 1) as nat, m);
    } else {
        lemma_nodes_core(g, g1, i, m);
    }
}

/// A second collection with the same roots changes nothing.
pub proof fn lemma_gc_again(h: Heap, roots: Seq<u32>)
    ensures
        h.gc(roots).gc(roots) == h.gc(roots),
{
    lemma_garbage_nodes(h.graph, h.gc(roots).graph, roots + h.roots, h.graph.nodes.len());
}

/// What a path leads to from a reachable node is reachable.
proof fn lemma_reach_path(g: Graph, roots: Seq<u32>, p: Seq<u32>)
    requires
        g.path(p),
        g.reachable(roots, p[0]),
    ensures
        g.reachable(roots, p.last()),
    decreases p.len(),
{
    if p.len() > 1 {
        let q = p.drop_last();
        assert forall|k: int| 0 <= k < q.len() - 1 implies #[trigger] g.edge(q[k], q[k + 1]) by {
            assert(g.edge(p[k], p[k + 1]));
        }
        lemma_reach_path(g, roots, q);
        assert(g.edge(p[p.len() - 2], p[p.len() - 2 + 1]));
        lemma_reach_step(g, roots, q.last(), p.last());
    }
}

/// Roots of which each is reachable from the others reach no more than they.
proof fn lemma_reach_more(g: Graph, roots: Seq<u32>, more: Seq<u32>, i: u32)
    requires
        forall|j: u32| roots.contains(j) ==> #[trigger] more.contains(j),
        forall|j: u32|
            #[trigger] more.contains(j) && j < g.nodes.len() ==> g.reachable(roots, j),
    ensures
        g.reachable(more, i) == g.reachable(roots, i),
{
    if g.reachable(more, i) {
        let p = choose|p: Seq<u32>| #[trigger] g.path(p) && more.contains(p[0]) && p.last() == i;
        lemma_reach_path(g, roots, p);
    }
    if g.reachable(roots, i) {
        let p = choose|p: Seq<u32>| #[trigger] g.path(p) && roots.contains(p[0]) && p.last() == i;
        assert(more.contains(p[0]));
    }
}

proof fn lemma_garbage_same(g: Graph, roots: Seq<u32>, more: Seq<u32>, n: nat)
    requires
        forall|i: u32| g.reachable(roots, i) == #[trigger] g.reachable(more, i),
    ensures
        g.garbage(roots, n) == g.garbage(more, n),
    decreases n,
{
    if n > 0 {
        assert(g.reachable(roots, (n - 1) as u32) == g.reachable(more, (n - 1) as u32));
        lemma_garbage_same(g, roots, more, (n - 1) as nat);
    }
}

/// To keep a node that the roots lead to anyway changes nothing.
pub proof fn lemma_gc_kept(h: Heap, roots: Seq<u32>, x: u32)
    requires
        h.graph.reachable(roots + h.roots, x),
    ensures
        h.gc(roots.push(x)) == h.gc(roots),
{
    let g = h.graph;
    let few = roots + h.roots;
    let more = roots.push(x) + h.roots;
    assert forall|j: u32| few.contains(j) implies #[trigger] more.contains(j) by {
        let k = choose|k: int| 0 <= k < few.len() && few[k] == j;
        if k < roots.len() {
            assert(more[k] == j);
        } else {
            assert(more[k + 1] == j);
        }
    }
    assert forall|j: u32| #[trigger] more.contains(j) && j < g.nodes.len() implies g.reachable(
        few,
        j,
    ) by {
        let k = choose|k: int| 0 <= k < more.len() && more[k] == j;
        if k < roots.len() {
            assert(few[k] == j);
            lemma_reach_root(g, few, j);
        } else if k > roots.len() {
            assert(few[k - 1] == j);
            lemma_reach_root(g, few, j);
        }
    }
    assert forall|i: u32| g.reachable(few, i) == #[trigger] g.reachable(more, i) by {
        lemma_reach_more(g, few, more, i);
    }
    lemma_garbage_same(g, few, more, g.nodes.len());
}

proof fn lemma_garbage_nodes(g: Graph, g1: Graph, roots: Seq<u32>, n: nat)
    requires
        g.nodes == g1.nodes,
    ensures
        g.garbage(roots, n) == g1.garbage(roots, n),
    decreases n,
{
    assert forall|i: u32| g.reachable(roots, i) == g1.reachable(roots, i) by {
        if g.reachable(roots, i) {
            let p = choose|p: Seq<u32>| #[trigger]
                g.path(p) && roots.contains(p[0]) && p.last() == i;
            assert forall|k: int| 0 <= k < p.len() - 1 implies #[trigger] g1.edge(
                p[k],
                p[k + 1],
            ) by {
                assert(g.edge(p[k], p[k + 1]));
            }
            assert(g1.path(p));
        }
        if g1.reachable(roots, i) {
            let p = choose|p: Seq<u32>| #[trigger]
                g1.path(p) && roots.contains(p[0]) && p.last() == i;
            assert forall|k: int| 0 <= k < p.len() - 1 implies #[trigger] g.edge(
                p[k],
                p[k + 1],
            ) by {
                assert(g1.edge(p[k], p[k + 1]));
            }
            assert(g.path(p));
        }
    }
    if n > 0 {
        lemma_garbage_nodes(g, g1, roots, (n - 1) as nat);
    }
}

impl Heap {
    /// `g` is what allocation and evaluation, or a collection, make of `self`.
    pub open spec fn passes_to(self, g: Heap) -> bool {
        self.leads_to(g) || exists|roots: Seq<u32>| g == #[trigger] self.gc(roots)
    }

    /// Every collection keeps the node, and it is the shared selector.
    pub open spec fn shares_sel(self, pos: int, s: u32) -> bool {
        &&& self.cached.sels.len() == 5
        &&& self.cached.sels[pos] == Some(s)
        &&& self.live(s)
        &&& self.roots.contains(s)
    }
}

/// A shared selector outlives allocation, evaluation and collections.
proof fn lemma_shares_sel(h: Heap, g: Heap, pos: int, s: u32)
    requires
        0 <= pos < 5,
        h.graph.nodes.len() <= u32::MAX,
        h.shares_sel(pos, s),
        h.passes_to(g),
    ensures
        g.shares_sel(pos, s),
        g.graph.nodes.len() <= u32::MAX,
{
    let k = choose|k: int| 0 <= k < h.roots.len() && h.roots[k] == s;
    if h.leads_to(g) {
        reveal(Heap::leads_to);
        assert(h.graph.live(s));
        assert(g.roots[k] == s);
    } else {
        let roots = choose|roots: Seq<u32>| g == #[trigger] h.gc(roots);
        let all = roots + h.roots;
        lemma_garbage(h.graph, all, h.graph.nodes.len());
        assert(all[roots.len() + k] == s);
        lemma_reach_root(h.graph, all, s);
        assert(g.roots[k] == s);
    }
}

/// A selector is allocated once: whatever is allocated, evaluated and
/// collected between two requests, the second gives the node that the first
/// gave and leaves the arena as it is.
pub proof fn lemma_sel_shared(h: Heap, pos: int, hs: Seq<Heap>, s: u32)
    requires
        h.wf(),
        h.checkpoint is None,
        0 <= pos < 5,
        hs.len() > 0,
        h.intern_diamond_sel(pos) == Ok::<(Heap, u32), AllocError>((hs[0], s)),
        forall|k: int| 0 <= k < hs.len() - 1 ==> (#[trigger] hs[k]).passes_to(hs[k + 1]),
    ensures
        hs.last().intern_diamond_sel(pos) == Ok::<(Heap, u32), AllocError>((hs.last(), s)),
{
    crate::intern::lemma_intern_diamond_sel(h, pos);
    crate::intern::lemma_sel_kept(h, pos);
    lemma_sel_states(hs, hs.len() - 1, pos, s);
}

proof fn lemma_sel_states(hs: Seq<Heap>, k: int, pos: int, s: u32)
    requires
        0 <= pos < 5,
        0 <= k < hs.len(),
        hs[0].graph.nodes.len() <= u32::MAX,
        hs[0].shares_sel(pos, s),
        forall|k: int| 0 <= k < hs.len() - 1 ==> (#[trigger] hs[k]).passes_to(hs[k + 1]),
    ensures
        hs[k].shares_sel(pos, s),
        hs[k].graph.nodes.len() <= u32::MAX,
    decreases k,
{
    if k > 0 {
        lemma_sel_states(hs, k - 1, pos, s);
        assert(hs[k - 1].passes_to(hs[k - 1 + 1]));
        lemma_shares_sel(hs[k - 1], hs[k], pos, s);
    }
}

/// How many are not marked yet.
pub open spec fn unmarked(marks: Seq<bool>) -> nat
    decreases marks.len(),
{
    if marks.len() == 0 {
        0
    } else {
        unmarked(marks.drop_last()) + if marks.last() {
            0nat
        } else {
            1nat
        }
    }
}

proof fn lemma_mark(marks: Seq<bool>, i: int)
    requires
        0 <= i < marks.len(),
        !marks[i],
    ensures
        unmarked(marks.update(i, true)) + 1 == unmarked(marks),
    decreases marks.len(),
{
    let m1 = marks.update(i, true);
    if i == marks.len() - 1 {
        assert(m1.drop_last() =~= marks.drop_last());
    } else {
        assert(m1.drop_last() =~= marks.drop_last().update(i, true));
        lemma_mark(marks.drop_last(), i);
    }
}

/// The marks so far: sound, and complete but for what the stack holds.
pub open spec fn marking(g: Graph, roots: Seq<u32>, marks: Seq<bool>, stack: Seq<u32>) -> bool {
    &&& marks.len() == g.nodes.len()
    &&& forall|i: u32|
        i < g.nodes.len() && #[trigger] marks[i as int] ==> g.reachable(roots, i)
    &&& forall|k: int|
        0 <= k < stack.len() ==> #[trigger] stack[k] < g.nodes.len() && g.reachable(roots, stack[k])
    &&& forall|i: u32, j: u32|
        i < g.nodes.len() && marks[i as int] && #[trigger] g.edge(i, j) ==> marks[j as int]
            || stack.contains(j)
}

/// The roots are marked or on the stack.
pub open spec fn seeded(g: Graph, seen: Seq<u32>, marks: Seq<bool>, stack: Seq<u32>) -> bool {
    forall|i: u32|
        i < g.nodes.len() && #[trigger] seen.contains(i) ==> marks[i as int] || stack.contains(i)
}

proof fn lemma_push_contains(stack: Seq<u32>, j: u32)
    ensures
        stack.push(j).contains(j),
        forall|i: u32| #[trigger] stack.contains(i) ==> stack.push(j).contains(i),
{
    assert(stack.push(j)[stack.len() as int] == j);
    assert forall|i: u32| #[trigger] stack.contains(i) implies stack.push(j).contains(i) by {
        let k = choose|k: int| 0 <= k < stack.len() && stack[k] == i;
        assert(stack.push(j)[k] == i);
    }
}

impl Arena {
    /// Pushes the roots that name a node.
    fn seed(&self, roots: &[u32], all: Ghost<Seq<u32>>, marked: &Bitmap, stack: &mut Vec<u32>)
        requires
            self@.graph.nodes.len() <= ARENA_HARD_LIMIT,
            marked.wf(),
            forall|k: int| 0 <= k < roots@.len() ==> all@.contains(#[trigger] roots@[k]),
            marking(self@.graph, all@, marked@, old(stack)@),
        ensures
            marking(self@.graph, all@, marked@, final(stack)@),
            seeded(self@.graph, roots@, marked@, final(stack)@),
            forall|i: u32| #[trigger] old(stack)@.contains(i) ==> final(stack)@.contains(i),
    {
        let len: usize = self.len();
        let mut k: usize = 0;
        while k < roots.len()
            invariant
                k <= roots@.len(),
                self@.graph.nodes.len() <= ARENA_HARD_LIMIT,
                marked.wf(),
                len == self@.graph.nodes.len(),
                forall|k: int| 0 <= k < roots@.len() ==> all@.contains(#[trigger] roots@[k]),
                marking(self@.graph, all@, marked@, stack@),
                forall|j: int|
                    0 <= j < k && roots@[j] < len ==> marked@[roots@[j] as int] || stack@.contains(
                        #[trigger] roots@[j],
                    ),
                forall|i: u32| #[trigger] old(stack)@.contains(i) ==> stack@.contains(i),
            decreases roots.len() - k,
        {
            let r: u32 = roots[k];
            if (r as usize) < len && !marked.get(r as usize) {
                proof {
                    lemma_reach_root(self@.graph, all@, r);
                    lemma_push_contains(stack@, r);
                }
                stack.push(r);
            }
            k += 1;
        }
        proof {
            assert forall|i: u32| i < len && #[trigger] roots@.contains(i) implies marked@[i as int]
                || stack@.contains(i) by {
                let j = choose|j: int| 0 <= j < roots@.len() && roots@[j] == i;
            }
        }
    }

    /// Marks what the roots lead to.
    fn mark(&self, roots: &[u32]) -> (marked: Bitmap)
        requires
            self@.graph.nodes.len() <= ARENA_HARD_LIMIT,
        ensures
            marked.wf(),
            marked@.len() == self@.graph.nodes.len(),
            forall|i: u32|
                i < self@.graph.nodes.len() ==> #[trigger] marked@[i as int]
                    == self@.graph.reachable(roots@ + self@.roots, i),
    {
        let len: usize = self.len();
        let ghost g = self@.graph;
        let ghost all = roots@ + self@.roots;
        let mut marked = Bitmap::new(len);
        let mut stack: Vec<u32> = Vec::with_capacity(1024);
        let own: &Vec<u32> = self.own_roots();
        proof {
            assert forall|k: int| 0 <= k < roots@.len() implies all.contains(
                #[trigger] roots@[k],
            ) by {
                assert(all[k] == roots@[k]);
            }
            assert forall|k: int| 0 <= k < own@.len() implies all.contains(#[trigger] own@[k]) by {
                assert(all[k + roots@.len()] == own@[k]);
            }
        }
        self.seed(roots, Ghost(all), &marked, &mut stack);
        self.seed(own.as_slice(), Ghost(all), &marked, &mut stack);
        proof {
            assert forall|i: u32| i < g.nodes.len() && #[trigger] all.contains(
                i,
            ) implies marked@[i as int] || stack@.contains(i) by {
                let k = choose|k: int| 0 <= k < all.len() && all[k] == i;
                if k < roots@.len() {
                    assert(roots@[k] == i);
                    assert(roots@.contains(i));
                } else {
                    assert(own@[k - roots@.len()] == i);
                    assert(own@.contains(i));
                }
            }
            assert(seeded(g, all, marked@, stack@));
        }
        while stack.len() > 0
            invariant
                self@.graph.nodes.len() <= ARENA_HARD_LIMIT,
                g == self@.graph,
                len == g.nodes.len(),
                marked.wf(),
                marking(g, all, marked@, stack@),
                seeded(g, all, marked@, stack@),
            decreases unmarked(marked@), stack@.len(),
        {
            let ghost s0 = stack@;
            let ghost m0 = marked@;
            let idx: u32 = stack.pop().unwrap();
            proof {
                assert forall|i: u32| #[trigger] s0.contains(i) && i != idx implies stack@.contains(
                    i,
                ) by {
                    let k = choose|k: int| 0 <= k < s0.len() && s0[k] == i;
                    assert(stack@[k] == i);
                }
                assert(s0[s0.len() - 1] == idx);
            }
            if !marked.get(idx as usize) {
                proof {
                    lemma_mark(marked@, idx as int);
                }
                marked.set(idx as usize);
                let node = self.node(idx);
                let ghost s1 = stack@;
                if node.a != NIL && (node.a as usize) < len && !marked.get(node.a as usize) {
                    proof {
                        assert(g.edge(idx, node.a));
                        lemma_reach_step(g, all, idx, node.a);
                        lemma_push_contains(stack@, node.a);
                    }
                    stack.push(node.a);
                }
                let ghost s2 = stack@;
                if node.b != NIL && (node.b as usize) < len && !marked.get(node.b as usize) {
                    proof {
                        assert(g.edge(idx, node.b));
                        lemma_reach_step(g, all, idx, node.b);
                        lemma_push_contains(stack@, node.b);
                    }
                    stack.push(node.b);
                }
                proof {
                    assert forall|i: u32| #[trigger] s1.contains(i) implies stack@.contains(i) by {
                        assert(s2.contains(i));
                    }
                    assert forall|i: u32, j: u32|
                        i < g.nodes.len() && marked@[i as int] && #[trigger] g.edge(
                            i,
                            j,
                        ) implies marked@[j as int] || stack@.contains(j) by {
                        if i != idx {
                            assert(m0[i as int]);
                            assert(m0[j as int] || s0.contains(j));
                        }
                    }
                    assert forall|i: u32| i < g.nodes.len() && #[trigger] all.contains(
                        i,
                    ) implies marked@[i as int] || stack@.contains(i) by {
                        assert(m0[i as int] || s0.contains(i));
                    }
                    assert forall|i: u32|
                        i < g.nodes.len() && #[trigger] marked@[i as int] implies g.reachable(
                        all,
                        i,
                    ) by {
                        if i != idx {
                            assert(m0[i as int]);
                        }
                    }
                }
            } else {
                proof {
                    assert forall|i: u32, j: u32|
                        i < g.nodes.len() && marked@[i as int] && #[trigger] g.edge(
                            i,
                            j,
                        ) implies marked@[j as int] || stack@.contains(j) by {
                        assert(m0[j as int] || s0.contains(j));
                    }
                    assert forall|i: u32| i < g.nodes.len() && #[trigger] all.contains(
                        i,
                    ) implies marked@[i as int] || stack@.contains(i) by {
                        assert(m0[i as int] || s0.contains(i));
                    }
                }
            }
        }
        proof {
            assert forall|i: u32| i < g.nodes.len() implies #[trigger] marked@[i as int]
                == g.reachable(all, i) by {
                if g.reachable(all, i) {
                    let p = choose|p: Seq<u32>| #[trigger]
                        g.path(p) && all.contains(p[0]) && p.last() == i;
                    assert forall|a: u32, b: u32|
                        a < g.nodes.len() && marked@[a as int] && #[trigger] g.edge(
                            a,
                            b,
                        ) implies marked@[b as int] by {
                        assert(!stack@.contains(b));
                    }
                    lemma_reach_closed(g, all, marked@, p);
                }
            }
        }
        marked
    }

    /// Frees what neither `roots` nor the arena's own roots lead to. Gives the
    /// number of nodes, of those that are live, and of those that are free.
    pub fn gc(&mut self, roots: &[u32]) -> (r: (usize, usize, usize))
        requires
            old(self)@.graph.nodes.len() <= ARENA_HARD_LIMIT,
        ensures
            final(self)@ == old(self)@.gc(roots@),
            r.0 == old(self)@.graph.nodes.len(),
            r.2 == final(self)@.graph.free.len(),
            r.0 == r.1 + r.2,
            forall|i: u32| #[trigger]
                final(self)@.live(i) <==> i < old(self)@.graph.nodes.len()
                    && old(self)@.graph.reachable(roots@ + old(self)@.roots, i),
            old(self)@.wf() && old(self)@.live_roots(roots@) ==> final(self)@.wf() && (forall|i: u32|
                #[trigger]
                final(self)@.live(i) ==> old(self)@.live(i) && final(self)@.at(i) == old(
                    self,
                )@.at(i) && final(self)@.term(i) == old(self)@.term(i)),
    {
        let len: usize = self.len();
        let ghost g = self@.graph;
        let ghost all = roots@ + self@.roots;
        let marked = self.mark(roots);
        let mut free: Vec<u32> = Vec::new();
        let mut live: usize = 0;
        let mut i: usize = 0;
        while i < len
            invariant
                i <= len,
                len == g.nodes.len(),
                len <= ARENA_HARD_LIMIT,
                marked.wf(),
                marked@.len() == len,
                forall|i: u32|
                    i < g.nodes.len() ==> #[trigger] marked@[i as int] == g.reachable(all, i),
                free@ == g.garbage(all, i as nat),
                live + free@.len() == i,
            decreases len - i,
        {
            assert(marked@[i as u32 as int] == g.reachable(all, i as u32));
            if marked.get(i) {
                live += 1;
            } else {
                free.push(i as u32);
            }
            i += 1;
        }
        proof {
            lemma_garbage(g, all, len as nat);
            if self@.wf() && self@.live_roots(roots@) {
                lemma_gc(self@, roots@);
            }
        }
        let freed: usize = len - live;
        self.set_free(free);
        (len, live, freed)
    }
}

} // verus!
