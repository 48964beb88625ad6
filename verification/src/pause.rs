//! Evaluation can be interrupted: going on later gives what evaluation in one
//! go gives.
//!
//! Two arenas may differ in where an indirection points on the way to its end,
//! because evaluation that starts anew walks along indirections that it would
//! otherwise have left alone. That difference never shows.

use vstd::prelude::*;
use crate::heap::{AllocError, Heap};
use crate::machine::Machine;
use crate::node::{APP, I, IND, K, K1, Node, S, S1, S2};

verus! {

broadcast use crate::heap::group_leads;

impl Heap {
    /// `g` is `self`, but for where its indirections point.
    #[verifier::opaque]
    pub open spec fn same_shape(self, g: Heap) -> bool {
        &&& g == (Heap { graph: g.graph, ..self })
        &&& g.graph.nodes.len() == self.graph.nodes.len()
        &&& g.graph.free == self.graph.free
        &&& forall|k: int|
            0 <= k < self.graph.free.len() ==> #[trigger] self.graph.free[k]
                < self.graph.nodes.len()
        &&& forall|i: u32| #[trigger]
            self.live(i) ==> {
                &&& g.at(i).tag == self.at(i).tag
                &&& g.at(i).b == self.at(i).b
                &&& self.at(i).tag != IND ==> g.at(i) == self.at(i)
            }
    }

    /// `g` is `self`, but for where its indirections point on the way to their
    /// ends.
    #[verifier::opaque]
    pub open spec fn alike(self, g: Heap) -> bool {
        &&& self.wf()
        &&& g.wf()
        &&& self.same_shape(g)
        &&& forall|i: u32| #[trigger] self.live(i) ==> g.follow(i) == self.follow(i)
    }
}

impl Machine {
    /// The machines are at the same place of arenas that are alike.
    pub open spec fn alike(self, g: Machine) -> bool {
        &&& self.wf()
        &&& g.wf()
        &&& self.heap.alike(g.heap)
        &&& self.spine == g.spine
        &&& self.n == g.n
    }
}

/// What is alike has the same nodes, live ones and free ones, and the same
/// room.
pub proof fn lemma_alike(h: Heap, g: Heap)
    requires
        h.alike(g),
    ensures
        h.wf(),
        g.wf(),
        g.graph.nodes.len() == h.graph.nodes.len(),
        g.graph.free == h.graph.free,
        g.room() == h.room(),
        forall|i: u32| #[trigger] h.live(i) == g.live(i),
        forall|i: u32| #[trigger] h.live(i) ==> g.follow(i) == h.follow(i),
        forall|i: u32| #[trigger]
            h.live(i) ==> g.tag(i) == h.tag(i) && g.at(i).b == h.at(i).b && (h.tag(i) != IND
                ==> g.at(i) == h.at(i)),
{
    reveal(Heap::alike);
    reveal(Heap::same_shape);
}

proof fn lemma_alike_refl(h: Heap)
    requires
        h.wf(),
    ensures
        h.alike(h),
{
    reveal(Heap::alike);
    reveal(Heap::same_shape);
}

proof fn lemma_alike_trans(h: Heap, g: Heap, k: Heap)
    requires
        h.alike(g),
        g.alike(k),
    ensures
        h.alike(k),
{
    reveal(Heap::alike);
    reveal(Heap::same_shape);
    assert forall|i: u32| #[trigger] h.live(i) implies g.live(i) by {}
}

/// Following indirections in one of the two.
pub proof fn lemma_alike_chase(h: Heap, i: u32)
    requires
        h.wf(),
        h.live(i),
    ensures
        h.alike(h.chase(i)),
        h.chase(i).alike(h),
{
    reveal(Heap::alike);
    reveal(Heap::same_shape);
    crate::heap::lemma_chase(h, i);
    assert forall|j: u32| #[trigger] h.chase(i).live(j) implies h.live(j) by {}
    assert forall|j: u32| #[trigger] h.live(j) implies h.chase(i).at(j).tag == h.at(j).tag by {}
}

/// Following indirections in both.
proof fn lemma_both_chase(h: Heap, g: Heap, i: u32)
    requires
        h.alike(g),
        h.live(i),
    ensures
        h.chase(i).alike(g.chase(i)),
        h.follow(i) == g.follow(i),
        g.live(i),
{
    lemma_alike(h, g);
    lemma_alike_chase(h, i);
    lemma_alike_chase(g, i);
    lemma_alike_trans(h.chase(i), h, g);
    lemma_alike_trans(h.chase(i), g, g.chase(i));
}

/// What is alike stands for the same expressions.
pub proof fn lemma_alike_term(h: Heap, g: Heap, i: u32)
    requires
        h.alike(g),
        h.live(i),
    ensures
        g.term(i) == h.term(i),
    decreases h.graph.rank(h.follow(i)),
{
    lemma_alike(h, g);
    let rank = h.graph.ranking();
    assert(h.graph.ranked(rank));
    crate::graph::lemma_follow(h.graph, i, rank);
    crate::graph::lemma_follow(g.graph, i, g.graph.ranking());
    let j = h.follow(i);
    assert(h.live(j));
    assert(g.at(j) == h.at(j));
    let n = h.at(j);
    if n.has_a() {
        assert(h.live(n.a));
        crate::graph::lemma_follow(h.graph, n.a, rank);
        lemma_alike_term(h, g, n.a);
    }
    if n.has_b() {
        assert(h.live(n.b));
        crate::graph::lemma_follow(h.graph, n.b, rank);
        lemma_alike_term(h, g, n.b);
    }
}

/// Allocating the same node in both.
proof fn lemma_shape_grow(h: Heap, g: Heap, n: Node)
    requires
        h.same_shape(g),
    ensures
        match (h.grow(n), g.grow(n)) {
            (Ok((h1, i)), Ok((g1, j))) => {
                &&& i == j
                &&& h1.same_shape(g1)
                &&& forall|k: u32| #[trigger] h1.live(k) ==> h.live(k) || h1.at(k) == n
                &&& forall|k: u32| #[trigger] h.live(k) ==> h1.live(k) && h1.at(k) == h.at(k)
            },
            (Err(e), Err(d)) => e == d,
            _ => false,
        },
{
    reveal(Heap::same_shape);
    let f = h.graph.free;
    if let (Ok((h1, i)), Ok((g1, j))) = (h.grow(n), g.grow(n)) {
        if h.checkpoint is None && f.len() > 0 {
            let f1 = f.drop_last();
            assert(f[f.len() - 1] < h.graph.nodes.len());
            assert(f[f.len() - 1] == i);
            assert(f.contains(i));
            assert(h1.graph.free == f1);
            assert(h1.graph.nodes == h.graph.nodes.update(i as int, n));
            assert forall|k: u32| #[trigger] h1.live(k) implies h.live(k) || k == i by {
                assert(h1.graph.live(k));
                if f.contains(k) && k != i {
                    let e = choose|e: int| 0 <= e < f.len() && f[e] == k;
                    assert(f1[e] == k);
                    assert(f1.contains(k));
                }
                assert(h.graph.live(k) || k == i);
            }
            assert forall|k: u32| #[trigger] h.live(k) implies h1.live(k) && h1.at(k) == h.at(
                k,
            ) by {
                assert(h.graph.live(k));
                if f1.contains(k) {
                    let e = choose|e: int| 0 <= e < f1.len() && f1[e] == k;
                    assert(f[e] == k);
                    assert(f.contains(k));
                }
                assert(h1.graph.live(k));
                assert(k != i);
            }
        } else {
            assert(h1.graph.nodes == h.graph.nodes.push(n));
            assert(h1.graph.free == f);
            assert forall|k: u32| #[trigger] h1.live(k) implies h.live(k) || k == i by {
                assert(h1.graph.live(k));
                assert(h.graph.live(k) || k == i);
            }
            assert forall|k: u32| #[trigger] h.live(k) implies h1.live(k) && h1.at(k) == h.at(
                k,
            ) by {
                assert(h.graph.live(k));
                assert(h1.graph.live(k));
            }
        }
        assert forall|k: u32| #[trigger] h1.live(k) implies g1.at(k).tag == h1.at(k).tag
            && g1.at(k).b == h1.at(k).b && (h1.at(k).tag != IND ==> g1.at(k) == h1.at(k)) by {
            if k == i {
                assert(h1.at(k) == n);
                assert(g1.at(k) == n);
            } else {
                assert(h.live(k));
                assert(h1.at(k) == h.at(k));
                assert(g1.at(k) == g.at(k));
            }
        }
    }
}

/// Replacing the same node in both.
proof fn lemma_shape_set(h: Heap, g: Heap, i: u32, n: Node)
    requires
        h.same_shape(g),
        h.live(i),
        h.at(i) == g.at(i),
    ensures
        h.overwrite(i, n).same_shape(g.overwrite(i, n)),
        forall|j: u32| #[trigger] h.overwrite(i, n).live(j) == h.live(j),
        forall|j: u32|
            #![trigger h.overwrite(i, n).at(j)]
            h.live(j) ==> h.overwrite(i, n).at(j) == if j == i {
                n
            } else {
                h.at(j)
            },
{
    reveal(Heap::same_shape);
    let h1 = h.overwrite(i, n);
    assert forall|j: u32| #[trigger] h1.live(j) == h.live(j) by {}
}

/// Building `f x (g x)` in both.
proof fn lemma_shape_spread(h: Heap, g: Heap, a: u32, b: u32, x: u32)
    requires
        h.same_shape(g),
    ensures
        match (h.spread(a, b, x), g.spread(a, b, x)) {
            (Ok((h1, i)), Ok((g1, j))) => {
                &&& i == j
                &&& h1.same_shape(g1)
                &&& forall|k: u32| #[trigger] h1.live(k) ==> h.live(k) || h1.tag(k) == APP
                &&& forall|k: u32| #[trigger] h.live(k) ==> h1.live(k) && h1.at(k) == h.at(k)
            },
            (Err(e), Err(d)) => e == d,
            _ => false,
        },
{
    let n1 = Node { tag: APP, a: a, b: x };
    let n2 = Node { tag: APP, a: b, b: x };
    lemma_shape_grow(h, g, n1);
    if let (Ok((h1, ax)), Ok((g1, _))) = (h.grow(n1), g.grow(n1)) {
        lemma_shape_grow(h1, g1, n2);
        if let (Ok((h2, bx)), Ok((g2, _))) = (h1.grow(n2), g1.grow(n2)) {
            let n3 = Node { tag: APP, a: ax, b: bx };
            lemma_shape_grow(h2, g2, n3);
            if let (Ok((h3, _)), Ok((g3, _))) = (h2.grow(n3), g2.grow(n3)) {
                assert forall|k: u32| #[trigger] h3.live(k) implies h.live(k) || h3.tag(k)
                    == APP by {
                    if h2.live(k) {
                        if h1.live(k) {
                            assert(h.live(k) || h1.at(k) == n1);
                        }
                    }
                }
                assert forall|k: u32| #[trigger] h.live(k) implies h3.live(k) && h3.at(k) == h.at(
                    k,
                ) by {
                    assert(h1.live(k));
                    assert(h2.live(k));
                }
            }
        }
    }
}

/// Contractions of the same redex in both: what has the same shape is alike.
proof fn lemma_contracts_alike(m: Machine, g: Machine, k: int, h1: Heap, g1: Heap, n: u32)
    requires
        m.alike(g),
        m.contracts(k, h1, n),
        g.contracts(k, g1, n),
        h1.same_shape(g1),
        forall|i: u32| #[trigger] h1.live(i) ==> m.heap.live(i) || h1.tag(i) != IND,
    ensures
        h1.alike(g1),
{
    reveal(Machine::contracts);
    reveal(Heap::alike);
    lemma_alike(m.heap, g.heap);
    assert(m.app(k) == g.app(k));
    assert forall|i: u32| #[trigger] h1.live(i) implies g1.follow(i) == h1.follow(i) by {
        reveal(Heap::same_shape);
        if m.heap.live(i) {
            assert(g.heap.live(i));
            assert(g.heap.follow(i) == m.heap.follow(i));
        } else {
            assert(g1.live(i));
            assert(g1.tag(i) == h1.tag(i));
        }
    }
}

/// A node of the spine, in both arenas.
proof fn lemma_spine_alike(m: Machine, g: Machine, h: Heap, k: Heap, j: int)
    requires
        m.alike(g),
        m.heap.alike(h),
        h.alike(k),
        0 <= j < m.spine.len(),
    ensures
        h.live(m.spine[j]),
        h.tag(m.spine[j]) == APP,
        h.at(m.spine[j]) == k.at(m.spine[j]),
        h.at(m.spine[j]) == m.heap.at(m.spine[j]),
        h.live(m.heap.at(m.spine[j]).b),
        h.live(m.heap.at(m.spine[j]).a),
{
    crate::machine::lemma_spine_term(m, j);
    lemma_alike(m.heap, h);
    lemma_alike(h, k);
    assert(m.heap.live(m.spine[j]));
    assert(h.live(m.spine[j]));
    assert(m.heap.live(m.heap.at(m.spine[j]).b));
    assert(m.heap.live(m.heap.at(m.spine[j]).a));
}

proof fn lemma_project_alike(m: Machine, g: Machine, src: u32)
    requires
        m.alike(g),
        m.spine.len() >= 1,
        m.heap.live(src),
    ensures
        m.project(src).heap.same_shape(g.project(src).heap),
        m.project(src).n == g.project(src).n,
        forall|i: u32| #[trigger] m.project(src).heap.live(i) ==> m.heap.live(i),
{
    reveal(Heap::alike);
    lemma_alike(m.heap, g.heap);
    lemma_both_chase(m.heap, g.heap, src);
    lemma_alike_chase(m.heap, src);
    let h = m.heap.chase(src);
    let k = g.heap.chase(src);
    lemma_spine_alike(m, g, h, k, m.spine.len() - 1);
    let p = m.app(1);
    let n = Node { tag: IND, a: m.heap.follow(src), b: h.at(p).b };
    lemma_shape_set(h, k, p, n);
    lemma_alike(m.heap, h);
    assert forall|i: u32| #[trigger] m.project(src).heap.live(i) implies m.heap.live(i) by {
        assert(h.live(i));
    }
}

proof fn lemma_project_k_alike(m: Machine, g: Machine)
    requires
        m.alike(g),
        m.spine.len() >= 2,
    ensures
        m.project_k().heap.same_shape(g.project_k().heap),
        m.project_k().n == g.project_k().n,
        forall|i: u32| #[trigger] m.project_k().heap.live(i) ==> m.heap.live(i),
{
    reveal(Heap::alike);
    lemma_alike(m.heap, g.heap);
    lemma_alike_refl(m.heap);
    lemma_spine_alike(m, g, m.heap, g.heap, m.spine.len() - 1);
    let q = m.app(1);
    let p = m.app(2);
    let src = m.heap.at(q).b;
    lemma_both_chase(m.heap, g.heap, src);
    lemma_alike_chase(m.heap, src);
    let h = m.heap.chase(src);
    let k = g.heap.chase(src);
    lemma_spine_alike(m, g, h, k, m.spine.len() - 1);
    lemma_spine_alike(m, g, h, k, m.spine.len() - 2);
    let x = m.heap.follow(src);
    let n = Node { tag: IND, a: x, b: h.at(p).b };
    lemma_shape_set(h, k, p, n);
    let h1 = h.redirect(p, x);
    let k1 = k.redirect(p, x);
    assert(h1.live(q) == h.live(q));
    assert(h1.at(q) == k1.at(q)) by {
        reveal(Heap::same_shape);
    }
    lemma_shape_set(h1, k1, q, Node { tag: K1, a: x, b: h1.at(q).b });
    lemma_alike(m.heap, h);
    assert forall|i: u32| #[trigger] m.project_k().heap.live(i) implies m.heap.live(i) by {
        assert(h1.live(i) == h.live(i));
        assert(h.live(i));
    }
}

/// Following two nodes in both.
proof fn lemma_both_chase2(h: Heap, g: Heap, a: u32, b: u32)
    requires
        h.alike(g),
        h.live(a),
        h.live(b),
    ensures
        h.alike(h.chase(a)),
        h.chase(a).alike(g.chase(a)),
        h.alike(h.chase(a).chase(b)),
        h.chase(a).chase(b).alike(g.chase(a).chase(b)),
        h.follow(a) == g.follow(a),
        h.chase(a).follow(b) == g.chase(a).follow(b),
        h.chase(a).live(b),
        h.chase(a).chase(b).same_shape(g.chase(a).chase(b)),
        forall|i: u32| #[trigger] h.chase(a).chase(b).live(i) == h.live(i),
{
    reveal(Heap::alike);
    lemma_alike(h, g);
    lemma_alike_chase(h, a);
    lemma_both_chase(h, g, a);
    let h1 = h.chase(a);
    lemma_alike(h, h1);
    assert(h1.live(b) == h.live(b));
    lemma_both_chase(h1, g.chase(a), b);
    lemma_alike_chase(h1, b);
    lemma_alike_trans(h, h1, h1.chase(b));
    lemma_alike(h, h1.chase(b));
    assert forall|i: u32| #[trigger] h1.chase(b).live(i) == h.live(i) by {
        assert(h.live(i) == h1.chase(b).live(i));
    }
}

/// `f x (g x)` in place of the application number `j` of the spine, in both.
proof fn lemma_spread_alike(m: Machine, g: Machine, j: int, h2: Heap, g2: Heap, a: u32, b: u32)
    requires
        m.alike(g),
        m.heap.alike(h2),
        h2.alike(g2),
        0 <= j < m.spine.len(),
    ensures
        h2.at(m.spine[j]).b == g2.at(m.spine[j]).b,
        match (
            h2.spread(a, b, h2.at(m.spine[j]).b),
            g2.spread(a, b, g2.at(m.spine[j]).b),
        ) {
            (Ok((h3, r)), Ok((g3, t))) => {
                &&& r == t
                &&& h3.redirect(m.spine[j], r).same_shape(g3.redirect(m.spine[j], t))
                &&& forall|i: u32| #[trigger]
                    h3.redirect(m.spine[j], r).live(i) ==> m.heap.live(i) || h3.redirect(
                        m.spine[j],
                        r,
                    ).tag(i) == APP
                &&& forall|i: u32| #[trigger]
                    m.heap.live(i) ==> h3.redirect(m.spine[j], r).live(i) && (i != m.spine[j]
                        ==> h3.redirect(m.spine[j], r).at(i) == h2.at(i) && g3.redirect(
                        m.spine[j],
                        r,
                    ).tag(i) == g2.tag(i))
            },
            (Err(e), Err(d)) => e == d,
            _ => false,
        },
{
    reveal(Heap::alike);
    let p = m.spine[j];
    lemma_spine_alike(m, g, h2, g2, j);
    lemma_alike(m.heap, h2);
    lemma_alike(h2, g2);
    let x = h2.at(p).b;
    lemma_shape_spread(h2, g2, a, b, x);
    if let (Ok((h3, r)), Ok((g3, t))) = (h2.spread(a, b, x), g2.spread(a, b, x)) {
        assert(h3.live(p) && h3.at(p) == h2.at(p));
        assert(g3.at(p) == h3.at(p)) by {
            reveal(Heap::same_shape);
        }
        let n = Node { tag: IND, a: r, b: h3.at(p).b };
        lemma_shape_set(h3, g3, p, n);
        let h4 = h3.redirect(p, r);
        let g4 = g3.redirect(p, r);
        assert(h4 == h3.overwrite(p, n));
        assert forall|i: u32| #[trigger] h4.live(i) implies m.heap.live(i) || h4.tag(i) == APP by {
            assert(h3.live(i));
            if h2.live(i) {
                assert(m.heap.live(i));
            } else {
                assert(h4.at(i) == h3.at(i));
            }
        }
        assert forall|i: u32| #[trigger] m.heap.live(i) implies h4.live(i) && (i != p ==> h4.at(i)
            == h2.at(i) && g4.tag(i) == g2.tag(i)) by {
            assert(h2.live(i));
            assert(h3.live(i));
            assert(h4.live(i) == h3.live(i));
            if i != p {
                assert(h4.at(i) == h3.at(i));
                reveal(Heap::same_shape);
            }
        }
    }
}

/// Recording a partial application at a node of the spine, in both.
proof fn lemma_record_alike(m: Machine, j: int, h: Heap, g: Heap, n: Node)
    requires
        m.wf(),
        h.same_shape(g),
        0 <= j < m.spine.len(),
        h.live(m.spine[j]),
        h.tag(m.spine[j]) == APP,
        n.tag != IND,
        forall|i: u32| #[trigger] h.live(i) ==> m.heap.live(i) || h.tag(i) != IND,
    ensures
        h.overwrite(m.spine[j], n).same_shape(g.overwrite(m.spine[j], n)),
        h.at(m.spine[j]) == g.at(m.spine[j]),
        forall|i: u32| #[trigger]
            h.overwrite(m.spine[j], n).live(i) ==> m.heap.live(i) || h.overwrite(
                m.spine[j],
                n,
            ).tag(i) != IND,
        forall|i: u32| #[trigger]
            h.live(i) ==> h.overwrite(m.spine[j], n).live(i) && (i != m.spine[j] ==> h.overwrite(
                m.spine[j],
                n,
            ).at(i) == h.at(i)),
{
    let q = m.spine[j];
    assert(h.at(q) == g.at(q)) by {
        reveal(Heap::same_shape);
    }
    lemma_shape_set(h, g, q, n);
    let h1 = h.overwrite(q, n);
    assert forall|i: u32| #[trigger] h1.live(i) implies m.heap.live(i) || h1.tag(i) != IND by {
        assert(h.live(i));
        assert(h1.at(i) == if i == q { n } else { h.at(i) });
    }
    assert forall|i: u32| #[trigger] h.live(i) implies h1.live(i) && (i != q ==> h1.at(i) == h.at(
        i,
    )) by {
        assert(h1.live(i) == h.live(i));
        assert(h1.at(i) == if i == q { n } else { h.at(i) });
    }
}

/// Two contractions end the same way.
pub open spec fn contracted_alike(
    m: Machine,
    r: Result<Machine, AllocError>,
    s: Result<Machine, AllocError>,
) -> bool {
    match (r, s) {
        (Ok(a), Ok(b)) => {
            &&& a.heap.same_shape(b.heap)
            &&& a.n == b.n
            &&& forall|i: u32| #[trigger] a.heap.live(i) ==> m.heap.live(i) || a.heap.tag(i) != IND
        },
        (Err(e), Err(d)) => e == d,
        _ => false,
    }
}

proof fn lemma_spread_s2_alike(m: Machine, g: Machine)
    requires
        m.alike(g),
        m.spine.len() >= 1,
        m.heap.tag(m.n) == S2,
    ensures
        contracted_alike(m, m.spread_s2(), g.spread_s2()),
{
    lemma_alike(m.heap, g.heap);
    let h0 = m.heap;
    let a = h0.at(m.n).a;
    let b = h0.at(m.n).b;
    assert(h0.live(m.n));
    assert(h0.live(a) && h0.live(b));
    lemma_both_chase2(h0, g.heap, a, b);
    let h1 = h0.chase(a);
    let g1 = g.heap.chase(a);
    lemma_alike(h0, h1);
    lemma_alike(h1, g1);
    assert(h1.live(m.n));
    assert(h1.at(m.n) == h0.at(m.n) && g1.at(m.n) == h0.at(m.n));
    lemma_spread_alike(
        m,
        g,
        m.spine.len() - 1,
        h1.chase(b),
        g1.chase(b),
        h0.follow(a),
        h1.follow(b),
    );
}

proof fn lemma_spread_s1_alike(m: Machine, g: Machine)
    requires
        m.alike(g),
        m.spine.len() >= 2,
        m.heap.tag(m.n) == S1,
    ensures
        contracted_alike(m, m.spread_s1(), g.spread_s1()),
{
    lemma_alike(m.heap, g.heap);
    let l = m.spine.len() as int;
    let h0 = m.heap;
    let rank = h0.graph.ranking();
    assert(h0.graph.ranked(rank));
    crate::machine::lemma_spine_rank(m, rank, l - 2, l - 1);
    crate::machine::lemma_spine_term(m, l - 1);
    let q = m.app(1);
    let p = m.app(2);
    let a = h0.at(m.n).a;
    let b = h0.at(q).b;
    assert(h0.live(m.n));
    assert(h0.live(a) && h0.live(b));
    lemma_both_chase2(h0, g.heap, a, b);
    let h1 = h0.chase(a);
    let g1 = g.heap.chase(a);
    let h2 = h1.chase(b);
    let g2 = g1.chase(b);
    lemma_spine_alike(m, g, h1, g1, l - 1);
    lemma_spine_alike(m, g, h2, g2, l - 1);
    let (f, e) = (h0.follow(a), h1.follow(b));
    lemma_spread_alike(m, g, l - 2, h2, g2, f, e);
    if let (Ok((h3, r)), Ok((g3, _))) = (
        h2.spread(f, e, h2.at(p).b),
        g2.spread(f, e, g2.at(p).b),
    ) {
        let n = Node { tag: S2, a: f, b: e };
        lemma_record_alike(m, l - 1, h3.redirect(p, r), g3.redirect(p, r), n);
    }
}

proof fn lemma_spread_s_alike(m: Machine, g: Machine)
    requires
        m.alike(g),
        m.spine.len() >= 3,
        m.heap.tag(m.n) == S,
    ensures
        contracted_alike(m, m.spread_s(), g.spread_s()),
{
    lemma_alike(m.heap, g.heap);
    let l = m.spine.len() as int;
    let h0 = m.heap;
    let rank = h0.graph.ranking();
    assert(h0.graph.ranked(rank));
    crate::machine::lemma_spine_rank(m, rank, l - 2, l - 1);
    crate::machine::lemma_spine_rank(m, rank, l - 3, l - 1);
    crate::machine::lemma_spine_rank(m, rank, l - 3, l - 2);
    crate::machine::lemma_spine_term(m, l - 1);
    crate::machine::lemma_spine_term(m, l - 2);
    let t = m.app(1);
    let q = m.app(2);
    let p = m.app(3);
    let a = h0.at(t).b;
    let b = h0.at(q).b;
    assert(h0.live(t) && h0.live(q));
    assert(h0.live(a) && h0.live(b));
    lemma_both_chase2(h0, g.heap, a, b);
    let h1 = h0.chase(a);
    let g1 = g.heap.chase(a);
    let h2 = h1.chase(b);
    let g2 = g1.chase(b);
    lemma_spine_alike(m, g, h1, g1, l - 2);
    lemma_spine_alike(m, g, h2, g2, l - 1);
    lemma_spine_alike(m, g, h2, g2, l - 2);
    let (f, e) = (h0.follow(a), h1.follow(b));
    lemma_spread_alike(m, g, l - 3, h2, g2, f, e);
    if let (Ok((h3, r)), Ok((g3, _))) = (
        h2.spread(f, e, h2.at(p).b),
        g2.spread(f, e, g2.at(p).b),
    ) {
        let h4 = h3.redirect(p, r);
        let g4 = g3.redirect(p, r);
        let n1 = Node { tag: S1, a: f, b: h4.at(t).b };
        lemma_record_alike(m, l - 1, h4, g4, n1);
        let h5 = h4.overwrite(t, n1);
        assert(h4.live(q));
        assert(h5.at(q) == h4.at(q));
        lemma_record_alike(m, l - 2, h5, g4.overwrite(t, n1), Node { tag: S2, a: f, b: e });
    }
}

/// Contractions of machines that are alike end the same way.
pub proof fn lemma_contract_alike(m: Machine, g: Machine)
    requires
        m.alike(g),
        m.heap.tag(m.n) != APP,
    ensures
        match (m.contract(), g.contract()) {
            (Ok(Some(a)), Ok(Some(b))) => a.alike(b),
            (Ok(None), Ok(None)) => true,
            (Err(e), Err(d)) => e == d,
            _ => false,
        },
{
    lemma_alike(m.heap, g.heap);
    let l = m.spine.len() as int;
    let tag = m.heap.tag(m.n);
    assert(m.heap.live(m.n));
    assert(g.heap.at(m.n) == m.heap.at(m.n));
    crate::machine::lemma_contracts(m);
    crate::machine::lemma_contracts(g);
    crate::machine::lemma_contract(m);
    crate::machine::lemma_contract(g);
    if l >= 1 {
        lemma_alike_refl(m.heap);
        lemma_spine_alike(m, g, m.heap, g.heap, l - 1);
    }
    if tag == I && l >= 1 {
        lemma_project_alike(m, g, m.heap.at(m.app(1)).b);
    } else if tag == K && l >= 2 {
        lemma_project_k_alike(m, g);
    } else if tag == K1 && l >= 1 {
        assert(m.heap.live(m.heap.at(m.n).a));
        lemma_project_alike(m, g, m.heap.at(m.n).a);
    } else if tag == S && l >= 3 {
        lemma_spread_s_alike(m, g);
    } else if tag == S1 && l >= 2 {
        lemma_spread_s1_alike(m, g);
    } else if tag == S2 && l >= 1 {
        lemma_spread_s2_alike(m, g);
    }
    if let (Ok(Some(a)), Ok(Some(b))) = (m.contract(), g.contract()) {
        lemma_contracts_alike(m, g, m.width(), a.heap, b.heap, a.n);
    }
}

/// Machines that are alike go down alike.
proof fn lemma_unwind_alike(m: Machine, g: Machine)
    requires
        m.alike(g),
    ensures
        m.unwind().alike(g.unwind()),
    decreases m.heap.term(m.n),
{
    lemma_alike(m.heap, g.heap);
    assert(m.heap.live(m.n));
    assert(g.heap.tag(m.n) == m.heap.tag(m.n));
    if m.heap.tag(m.n) == APP {
        crate::machine::lemma_descend(m);
        crate::machine::lemma_descend(g);
        let a = m.heap.at(m.n).a;
        assert(m.heap.live(a));
        lemma_both_chase(m.heap, g.heap, a);
        lemma_unwind_alike(m.descend(), g.descend());
    }
}

/// Going down leaves an arena that is alike.
pub proof fn lemma_unwind_self(m: Machine)
    requires
        m.wf(),
    ensures
        m.heap.alike(m.unwind().heap),
    decreases m.heap.term(m.n),
{
    if m.heap.tag(m.n) == APP {
        crate::machine::lemma_descend(m);
        let a = m.heap.at(m.n).a;
        assert(m.heap.live(m.n));
        assert(m.heap.live(a));
        lemma_alike_chase(m.heap, a);
        lemma_unwind_self(m.descend());
        lemma_alike_trans(m.heap, m.descend().heap, m.unwind().heap);
    } else {
        lemma_alike_refl(m.heap);
    }
}

/// Going down comes from an arena that is alike.
proof fn lemma_unwind_back(m: Machine)
    requires
        m.wf(),
    ensures
        m.unwind().heap.alike(m.heap),
{
    lemma_unwind_self(m);
    let u = m.unwind().heap;
    lemma_alike(m.heap, u);
    reveal(Heap::alike);
    reveal(Heap::same_shape);
    assert forall|i: u32| #[trigger] u.live(i) implies m.heap.live(i) by {
        assert(m.heap.live(i) == u.live(i));
    }
}

/// A machine that has gone down the first `j` applications of another one's
/// spine gets to where the other one gets.
proof fn lemma_catch_up(p: Machine, m: Machine, j: int)
    requires
        p.wf(),
        m.wf(),
        p.heap.alike(m.heap),
        0 <= j <= m.spine.len(),
        p.spine == m.spine.take(j),
        p.n == m.next(j - 1),
    ensures
        p.unwind().alike(m.unwind()),
    decreases m.spine.len() - j,
{
    if j == m.spine.len() {
        assert(p.spine =~= m.spine);
        lemma_unwind_alike(p, m);
    } else {
        lemma_alike(p.heap, m.heap);
        crate::machine::lemma_spine_term(m, j);
        assert(p.n == m.spine[j]);
        assert(p.heap.live(p.n));
        assert(p.heap.at(p.n) == m.heap.at(p.n));
        let a = m.heap.at(p.n).a;
        assert(p.heap.live(a));
        crate::machine::lemma_descend(p);
        lemma_alike_chase(p.heap, a);
        lemma_alike_trans(p.heap.chase(a), p.heap, m.heap);
        assert(p.heap.follow(a) == m.heap.follow(a));
        assert(m.spine.take(j).push(m.spine[j]) =~= m.spine.take(j + 1));
        lemma_catch_up(p.descend(), m, j + 1);
    }
}

/// Runs of machines that are alike end alike.
proof fn lemma_run_alike(m: Machine, g: Machine, fuel: nat)
    requires
        m.alike(g),
    ensures
        match (m.run(fuel), g.run(fuel)) {
            (Ok((h, x)), Ok((k, y))) => h.alike(k) && x == y,
            (Err(e), Err(d)) => e == d,
            _ => false,
        },
    decreases fuel,
{
    if fuel > 0 {
        lemma_unwind_alike(m, g);
        crate::machine::lemma_unwind(m);
        let (u, v) = (m.unwind(), g.unwind());
        lemma_contract_alike(u, v);
        if let (Ok(Some(a)), Ok(Some(b))) = (u.contract(), v.contract()) {
            lemma_run_alike(a, b, (fuel - 1) as nat);
        }
    }
}

/// Where a machine is when the fuel is used up, and that it could go on from
/// there.
proof fn lemma_run_split(m: Machine, a: nat, b: nat) -> (r: Machine)
    requires
        m.wf(),
        m.run(a) matches Ok((_, (_, f))) && f == 0,
    ensures
        r.wf(),
        m.run(a) == Ok::<(Heap, (u32, nat)), AllocError>((r.heap, (r.n, 0))),
        m.run(a + b) == r.run(b),
        forall|i: u32| #[trigger]
            m.heap.live(i) && m.heap.follow(i) == m.outer() ==> r.heap.live(i) && r.heap.follow(i)
                == r.outer(),
    decreases a,
{
    if a == 0 {
        m
    } else {
        let u = m.unwind();
        crate::machine::lemma_unwind(m);
        crate::machine::lemma_contract(u);
        let m1 = u.contract()->Ok_0->0;
        let r = lemma_run_split(m1, (a - 1) as nat, b);
        assert((a - 1) as nat + b == (a + b - 1) as nat);
        assert forall|i: u32| #[trigger] m.heap.live(i) && m.heap.follow(i)
            == m.outer() implies r.heap.live(i) && r.heap.follow(i) == r.outer() by {
            assert(u.heap.live(i));
            assert(m1.heap.live(i));
        }
        r
    }
}

impl Heap {
    /// Evaluation that was interrupted (it left `self` and took `a` units of
    /// fuel less `f1`) and goes on with `b` units ends as evaluation in one go
    /// with `a + b` units does.
    pub open spec fn goes_on(
        self,
        node: u32,
        a: nat,
        f1: nat,
        b: nat,
        whole: Result<(Heap, (u32, nat)), AllocError>,
    ) -> bool {
        match (self.whnf(node, b), whole) {
            (Ok((h2, (r2, f2))), Ok((h3, (r3, f3)))) => {
                &&& (a - f1) + (b - f2) == a + b - f3
                &&& h2.follow(node) == h3.follow(node)
                &&& b > 0 ==> r2 == r3
                &&& h2.alike(h3)
            },
            (Err(e), Err(d)) => e == d,
            _ => false,
        }
    }
}

/// Evaluation can be interrupted: `a` units of fuel and then `b` more give
/// what `a + b` units give at once. The fuel that is used, the node that the
/// evaluated one leads to, the number of nodes, the free ones and every
/// expression are the same.
pub proof fn lemma_whnf_interrupted(h: Heap, node: u32, a: nat, b: nat)
    requires
        h.wf(),
        h.live(node),
    ensures
        h.whnf(node, a) matches Ok((h1, (_, f1))) ==> h1.goes_on(
            node,
            a,
            f1,
            b,
            h.whnf(node, a + b),
        ) && (match (h1.whnf(node, b), h.whnf(node, a + b)) {
            (Ok((h2, _)), Ok((h3, _))) => h2.graph.nodes.len() == h3.graph.nodes.len()
                && h2.graph.free == h3.graph.free && (forall|i: u32| #[trigger]
                h.live(i) ==> h2.live(i) && h3.live(i) && h2.term(i) == h3.term(i)),
            _ => true,
        }),
{
    if let Ok((h1, (r1, f1))) = h.whnf(node, a) {
        let whole = h.whnf(node, a + b);
        crate::machine::lemma_whnf(h, node, a);
        assert(h.graph.live(node));
        assert(h1.live(node));
        let s = Machine::start(h1, node);
        crate::machine::lemma_start(h1, node);
        lemma_alike_chase(h1, node);
        let m0 = Machine::start(h, node);
        crate::machine::lemma_start(h, node);
        crate::heap::lemma_chase(h, node);
        crate::heap::lemma_chase(h1, node);
        assert(m0.heap.live(node) && m0.heap.follow(node) == m0.outer());
        reveal(Heap::whnf);
        if f1 > 0 {
            crate::machine::lemma_run_more(m0, a, b);
            if b > 0 {
                crate::machine::lemma_whnf_again(h, node, a, b);
                crate::machine::lemma_unwind(s);
                crate::machine::lemma_contract(s.unwind());
                lemma_unwind_back(s);
                lemma_alike_trans(s.unwind().heap, s.heap, h1);
            }
        } else {
            let m = lemma_run_split(m0, a, b);
            assert(m.heap == h1);
            if b > 0 {
                assert(s.n == m.next(-1));
                assert(s.spine =~= m.spine.take(0));
                lemma_catch_up(s, m, 0);
                crate::machine::lemma_unwind(s);
                let (u, v) = (s.unwind(), m.unwind());
                lemma_contract_alike(u, v);
                if let (Ok(Some(x)), Ok(Some(y))) = (u.contract(), v.contract()) {
                    lemma_run_alike(x, y, (b - 1) as nat);
                }
            }
        }
        if let (Ok((h2, _)), Ok((h3, _))) = (h1.whnf(node, b), whole) {
            assert(h2.alike(h3));
            lemma_alike(h2, h3);
            crate::machine::lemma_whnf(h1, node, b);
            assert(h1.graph.live(node));
            assert(h2.live(node));
            assert forall|i: u32| #[trigger] h.live(i) implies h2.live(i) && h3.live(i)
                && h2.term(i) == h3.term(i) by {
                assert(h.graph.live(i));
                assert(h1.live(i));
                assert(h1.graph.live(i));
                assert(h2.live(i));
                lemma_alike_term(h2, h3, i);
            }
        }
    }
}

} // verus!
