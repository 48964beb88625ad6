//! The parts of a pair are the very nodes that it was made of, and taking them
//! leaves the pair as usable as it was.
//!
//! What a node stands for says nothing of which nodes it is made of. A sketch
//! does: it is an expression with two holes, and a node is drawn by it when the
//! two given nodes stand in the holes. Sketches are typed, the holes with a
//! type of values, so that what stands in a hole is never applied.

use vstd::prelude::*;
use crate::encode::Recipe;
use crate::heap::Heap;
use crate::machine::Machine;
use crate::node::{APP, I, IND, K, K1, Node, S, S1, S2};
use crate::term::Term;

verus! {

broadcast use crate::heap::group_leads;

/// The atom that marks the first hole.
pub const FIRST: u8 = 200;

/// The atom that marks the second hole.
pub const SECOND: u8 = 201;

/// A type: of values, or of functions.
pub enum Kind {
    Value,
    Arrow(Box<Kind>, Box<Kind>),
}

impl Kind {
    pub open spec fn arrow(a: Kind, b: Kind) -> Kind {
        Kind::Arrow(Box::new(a), Box::new(b))
    }

    /// What a function takes.
    pub open spec fn from(self) -> Kind {
        *self->Arrow_0
    }

    /// What a function gives.
    pub open spec fn to(self) -> Kind {
        *self->Arrow_1
    }

    /// An atom can have this type.
    pub open spec fn fits(self, tag: u8) -> bool {
        if tag == FIRST || tag == SECOND {
            self is Value
        } else if tag == I {
            self is Arrow && self.from() == self.to()
        } else if tag == K {
            self is Arrow && self.to() is Arrow && self.to().to() == self.from()
        } else if tag == S {
            let (f, g) = (self.from(), self.to().from());
            let r = self.to().to();
            &&& self is Arrow && self.to() is Arrow && r is Arrow
            &&& f is Arrow && f.to() is Arrow && g is Arrow
            &&& f.from() == r.from() && g.from() == r.from()
            &&& f.to().from() == g.to()
            &&& f.to().to() == r.to()
        } else {
            false
        }
    }
}

/// A typed expression with holes.
pub enum Sketch {
    Atom(u8, Kind),
    App(Box<Sketch>, Box<Sketch>),
}

impl Sketch {
    pub open spec fn app(f: Sketch, x: Sketch) -> Sketch {
        Sketch::App(Box::new(f), Box::new(x))
    }

    pub open spec fn fun(self) -> Sketch {
        *self->App_0
    }

    pub open spec fn arg(self) -> Sketch {
        *self->App_1
    }

    pub open spec fn is_atom(self, tag: u8) -> bool {
        self is Atom && self->Atom_0 == tag
    }

    pub open spec fn kind(self) -> Kind
        decreases self,
    {
        match self {
            Sketch::Atom(_, k) => k,
            Sketch::App(f, _) => f.kind().to(),
        }
    }

    /// The types fit.
    pub open spec fn typed(self) -> bool
        decreases self,
    {
        match self {
            Sketch::Atom(tag, k) => k.fits(tag),
            Sketch::App(f, x) => f.typed() && x.typed() && f.kind() is Arrow && f.kind().from()
                == x.kind(),
        }
    }

    /// The expression, with an atom for each hole.
    pub open spec fn term(self) -> Term
        decreases self,
    {
        match self {
            Sketch::Atom(tag, _) => Term::Atom(tag),
            Sketch::App(f, x) => Term::app(f.term(), x.term()),
        }
    }
}

impl Heap {
    /// The sketch draws the node `i`, with `a` and `b` in the holes.
    pub open spec fn drawn(self, i: u32, d: Sketch, a: u32, b: u32) -> bool
        decreases d,
    {
        match d {
            Sketch::Atom(tag, _) => if tag == FIRST {
                self.follow(i) == self.follow(a)
            } else if tag == SECOND {
                self.follow(i) == self.follow(b)
            } else {
                self.tag(self.follow(i)) == tag
            },
            Sketch::App(f, x) => {
                let n = self.at(self.follow(i));
                ||| n.tag == APP && self.drawn(n.a, *f, a, b) && self.drawn(n.b, *x, a, b)
                ||| n.tag == K1 && f.is_atom(K) && self.drawn(n.a, *x, a, b)
                ||| n.tag == S1 && f.is_atom(S) && self.drawn(n.a, *x, a, b)
                ||| n.tag == S2 && match *f {
                    Sketch::App(s, y) => s.is_atom(S) && self.drawn(n.a, *y, a, b) && self.drawn(
                        n.b,
                        *x,
                        a,
                        b,
                    ),
                    _ => false,
                }
            },
        }
    }

    /// In `h` the node `j` records a partial application that it was.
    pub open spec fn recorded(self, h: Heap, j: u32) -> bool {
        let n = self.at(j);
        let e = self.follow(n.a);
        let r = h.at(j);
        &&& n.tag == APP
        &&& {
            ||| r.tag == K1 && self.tag(e) == K && h.live(r.a) && h.follow(r.a) == h.follow(n.b)
            ||| r.tag == S1 && self.tag(e) == S && h.live(r.a) && h.follow(r.a) == h.follow(n.b)
            ||| r.tag == S2 && h.live(r.a) && h.live(r.b) && h.follow(r.b) == h.follow(n.b) && {
                ||| self.tag(e) == S1 && h.follow(r.a) == h.follow(self.at(e).a)
                ||| self.tag(e) == APP && self.tag(self.follow(self.at(e).a)) == S && h.follow(r.a)
                    == h.follow(self.at(e).b)
            }
        }
    }

    /// The node `i` is `f x (g x)`.
    pub open spec fn is_spread(self, i: u32, f: u32, g: u32, x: u32) -> bool {
        let n = self.at(i);
        &&& self.live(i) && n.tag == APP
        &&& self.live(n.a) && self.at(n.a) == (Node { tag: APP, a: f, b: x })
        &&& self.live(n.b) && self.at(n.b) == (Node { tag: APP, a: g, b: x })
    }

    /// `self.at(p)` is `f x (g x)` in `h`, where `f` and `g` are found at two
    /// other nodes.
    pub open spec fn spread_in(self, h: Heap, p: u32, f: u32, g: u32) -> bool {
        exists|f1: u32, g1: u32| #[trigger]
            h.is_spread(h.follow(p), f1, g1, self.at(p).b) && h.live(f1) && h.live(g1) && h.follow(
                f1,
            ) == h.follow(f) && h.follow(g1) == h.follow(g)
    }

    /// In `h` the redex `p` is replaced by what it reduces to.
    pub open spec fn replaced(self, h: Heap, p: u32) -> bool {
        let n = self.at(p);
        let e = self.follow(n.a);
        let c = self.at(e);
        let d = self.follow(c.a);
        ||| c.tag == I && h.follow(p) == h.follow(n.b)
        ||| c.tag == K1 && h.follow(p) == h.follow(c.a)
        ||| c.tag == APP && self.tag(d) == K && h.follow(p) == h.follow(c.b)
        ||| c.tag == S2 && self.spread_in(h, p, c.a, c.b)
        ||| c.tag == APP && self.tag(d) == S1 && self.spread_in(h, p, self.at(d).a, c.b)
        ||| c.tag == APP && self.tag(d) == APP && self.tag(self.follow(self.at(d).a)) == S
            && self.spread_in(h, p, self.at(d).b, c.b)
    }
}

impl Machine {
    /// `h` is the arena after a contraction, node by node.
    #[verifier::opaque]
    pub open spec fn rewrites(self, h: Heap, p: u32) -> bool {
        &&& self.heap.live(p)
        &&& self.heap.tag(p) == APP
        &&& h.wf()
        &&& forall|j: u32| #[trigger]
            self.heap.live(j) ==> h.live(j) && h.follow(j) == if self.heap.follow(j) == p {
                h.follow(p)
            } else {
                self.heap.follow(j)
            }
        &&& forall|j: u32| #[trigger]
            self.heap.live(j) && self.heap.tag(j) != IND && j != p ==> h.at(j) == self.heap.at(j)
                || self.heap.recorded(h, j)
        &&& self.heap.replaced(h, p)
    }
}

/// Nodes with the same end are drawn alike.
proof fn lemma_drawn_end(h: Heap, i: u32, j: u32, d: Sketch, a: u32, b: u32)
    requires
        h.follow(i) == h.follow(j),
    ensures
        h.drawn(i, d, a, b) == h.drawn(j, d, a, b),
{
}

/// Where a sketch with a type of functions is drawn by a node, what it is.
proof fn lemma_drawn_atom(h: Heap, i: u32, d: Sketch, a: u32, b: u32)
    requires
        h.drawn(i, d, a, b),
        d.typed(),
        d.kind() is Arrow,
    ensures
        ({
            let t = h.tag(h.follow(i));
            &&& d is Atom ==> d->Atom_0 == t && (t == S || t == K || t == I)
            &&& t == S || t == K || t == I ==> d.is_atom(t)
            &&& t == APP || t == K1 || t == S1 || t == S2 ==> d is App
        }),
{
}

/// What a contraction makes of a sketch that draws a node: one that results by
/// parallel reduction draws it then.
proof fn lemma_drawn_step(m: Machine, h: Heap, p: u32, i: u32, d: Sketch, a: u32, b: u32) -> (r:
    Sketch)
    requires
        m.wf(),
        m.rewrites(h, p),
        m.heap.live(i),
        m.heap.live(a),
        m.heap.live(b),
        m.heap.drawn(i, d, a, b),
        d.typed(),
    ensures
        h.drawn(i, r, a, b),
        r.typed(),
        r.kind() == d.kind(),
        d.term().par(r.term()),
    decreases d,
{
    reveal(Machine::rewrites);
    reveal_with_fuel(Sketch::typed, 5);
    reveal_with_fuel(Sketch::kind, 5);
    reveal_with_fuel(Sketch::term, 5);
    reveal_with_fuel(Heap::drawn, 4);
    let h0 = m.heap;
    let rank = h0.graph.ranking();
    assert(h0.graph.ranked(rank));
    crate::graph::lemma_follow(h0.graph, i, rank);
    let j = h0.follow(i);
    assert(h0.live(j));
    let n = h0.at(j);
    match d {
        Sketch::Atom(tag, _) => {
            if tag != FIRST && tag != SECOND {
                assert(j != p);
                assert(h.at(j) == n);
            }
            d
        },
        Sketch::App(f, x) => {
            if j != p && n.tag != APP {
                assert(h.at(j) == n);
                assert(h0.live(n.a));
                if n.tag == S2 {
                    assert(h0.live(n.b));
                    let s = f.fun();
                    let y = f.arg();
                    let y1 = lemma_drawn_step(m, h, p, n.a, y, a, b);
                    let x1 = lemma_drawn_step(m, h, p, n.b, *x, a, b);
                    crate::term::lemma_par_refl(s.term());
                    crate::term::lemma_par_app(s.term(), y.term(), s.term(), y1.term());
                    let f1 = Sketch::app(s, y1);
                    crate::term::lemma_par_app(f.term(), x.term(), f1.term(), x1.term());
                    Sketch::app(f1, x1)
                } else {
                    let x1 = lemma_drawn_step(m, h, p, n.a, *x, a, b);
                    crate::term::lemma_par_refl(f.term());
                    crate::term::lemma_par_app(f.term(), x.term(), f.term(), x1.term());
                    Sketch::app(*f, x1)
                }
            } else {
                assert(n.tag == APP);
                assert(h0.live(n.a) && h0.live(n.b));
                lemma_drawn_atom(h0, n.a, *f, a, b);
                let x1 = lemma_drawn_step(m, h, p, n.b, *x, a, b);
                if j != p {
                    let f1 = lemma_drawn_step(m, h, p, n.a, *f, a, b);
                    crate::term::lemma_par_app(f.term(), x.term(), f1.term(), x1.term());
                    assert(h.follow(i) == j);
                    if h.at(j) == n {
                        Sketch::app(f1, x1)
                    } else {
                        let r = lemma_drawn_recorded(m, h, p, j, *f, *x, x1, a, b);
                        lemma_drawn_end(h, i, j, r, a, b);
                        r
                    }
                } else {
                    let r = lemma_drawn_replaced(m, h, p, *f, *x, x1, a, b);
                    lemma_drawn_end(h, i, p, r, a, b);
                    r
                }
            }
        },
    }
}

/// A partial application that was recorded.
proof fn lemma_drawn_recorded(
    m: Machine,
    h: Heap,
    p: u32,
    j: u32,
    f: Sketch,
    x: Sketch,
    x1: Sketch,
    a: u32,
    b: u32,
) -> (r: Sketch)
    requires
        m.wf(),
        m.rewrites(h, p),
        m.heap.live(j),
        m.heap.live(a),
        m.heap.live(b),
        m.heap.tag(j) == APP,
        m.heap.recorded(h, j),
        h.follow(j) == j,
        m.heap.drawn(m.heap.at(j).a, f, a, b),
        Sketch::app(f, x).typed(),
        x1.typed(),
        x1.kind() == x.kind(),
        x.term().par(x1.term()),
        h.drawn(m.heap.at(j).b, x1, a, b),
    ensures
        h.drawn(j, r, a, b),
        r.typed(),
        r.kind() == f.kind().to(),
        Sketch::app(f, x).term().par(r.term()),
    decreases f,
{
    reveal_with_fuel(Sketch::typed, 5);
    reveal_with_fuel(Sketch::kind, 5);
    reveal_with_fuel(Sketch::term, 5);
    reveal_with_fuel(Heap::drawn, 4);
    let h0 = m.heap;
    let n = h0.at(j);
    assert(h0.live(n.a) && h0.live(n.b));
    let rank = h0.graph.ranking();
    assert(h0.graph.ranked(rank));
    crate::graph::lemma_follow(h0.graph, n.a, rank);
    let e = h0.follow(n.a);
    assert(h0.live(e));
    lemma_drawn_atom(h0, n.a, f, a, b);
    let c = h.at(j);
    if c.tag == K1 || c.tag == S1 {
        lemma_drawn_end(h, c.a, n.b, x1, a, b);
        crate::term::lemma_par_refl(f.term());
        crate::term::lemma_par_app(f.term(), x.term(), f.term(), x1.term());
        Sketch::app(f, x1)
    } else {
        lemma_drawn_end(h, c.b, n.b, x1, a, b);
        let k = h0.at(e);
        let s = f.fun();
        let y = f.arg();
        let q = if k.tag == S1 {
            k.a
        } else {
            k.b
        };
        assert(h0.live(k.a));
        if k.tag == APP {
            assert(h0.live(k.b));
            lemma_drawn_atom(h0, k.a, s, a, b);
        }
        let y1 = lemma_drawn_step(m, h, p, q, y, a, b);
        lemma_drawn_end(h, c.a, q, y1, a, b);
        crate::term::lemma_par_refl(s.term());
        crate::term::lemma_par_app(s.term(), y.term(), s.term(), y1.term());
        let f1 = Sketch::app(s, y1);
        crate::term::lemma_par_app(f.term(), x.term(), f1.term(), x1.term());
        assert(f1.typed());
        Sketch::app(f1, x1)
    }
}

/// The redex that was replaced.
#[verifier::spinoff_prover]
proof fn lemma_drawn_replaced(
    m: Machine,
    h: Heap,
    p: u32,
    f: Sketch,
    x: Sketch,
    x1: Sketch,
    a: u32,
    b: u32,
) -> (r: Sketch)
    requires
        m.wf(),
        m.rewrites(h, p),
        m.heap.live(a),
        m.heap.live(b),
        m.heap.drawn(m.heap.at(p).a, f, a, b),
        Sketch::app(f, x).typed(),
        x1.typed(),
        x1.kind() == x.kind(),
        x.term().par(x1.term()),
        h.drawn(m.heap.at(p).b, x1, a, b),
    ensures
        h.drawn(p, r, a, b),
        r.typed(),
        r.kind() == f.kind().to(),
        Sketch::app(f, x).term().par(r.term()),
    decreases f,
{
    reveal(Machine::rewrites);
    reveal_with_fuel(Sketch::typed, 5);
    reveal_with_fuel(Sketch::kind, 5);
    reveal_with_fuel(Sketch::term, 5);
    reveal_with_fuel(Heap::drawn, 4);
    let h0 = m.heap;
    let n = h0.at(p);
    assert(h0.live(n.a) && h0.live(n.b));
    let rank = h0.graph.ranking();
    assert(h0.graph.ranked(rank));
    crate::graph::lemma_follow(h0.graph, n.a, rank);
    let e = h0.follow(n.a);
    assert(h0.live(e));
    let c = h0.at(e);
    lemma_drawn_atom(h0, n.a, f, a, b);
    if c.tag == I {
        lemma_drawn_end(h, p, n.b, x1, a, b);
        x1
    } else {
        assert(h0.live(c.a));
        let g = f.fun();
        let y = f.arg();
        if c.tag == K1 {
            let y1 = lemma_drawn_step(m, h, p, c.a, y, a, b);
            lemma_drawn_end(h, p, c.a, y1, a, b);
            y1
        } else {
            assert(h0.live(c.b));
            let y1 = lemma_drawn_step(m, h, p, c.b, y, a, b);
            if c.tag == S2 {
                let z = g.arg();
                let z1 = lemma_drawn_step(m, h, p, c.a, z, a, b);
                lemma_drawn_spread(h0, h, p, c.a, c.b, z1, y1, x1, a, b);
                Sketch::app(Sketch::app(z1, x1), Sketch::app(y1, x1))
            } else {
                lemma_drawn_atom(h0, c.a, g, a, b);
                crate::graph::lemma_follow(h0.graph, c.a, rank);
                let d = h0.follow(c.a);
                assert(h0.live(d));
                if h0.tag(d) == K {
                    lemma_drawn_end(h, p, c.b, y1, a, b);
                    y1
                } else {
                    let k = h0.at(d);
                    let z = g.arg();
                    let q = if k.tag == S1 {
                        k.a
                    } else {
                        k.b
                    };
                    assert(h0.live(k.a));
                    if k.tag == APP {
                        assert(h0.live(k.b));
                        lemma_drawn_atom(h0, k.a, g.fun(), a, b);
                    }
                    let z1 = lemma_drawn_step(m, h, p, q, z, a, b);
                    lemma_drawn_spread(h0, h, p, q, c.b, z1, y1, x1, a, b);
                    Sketch::app(Sketch::app(z1, x1), Sketch::app(y1, x1))
                }
            }
        }
    }
}

/// `f x (g x)` in place of a redex.
proof fn lemma_drawn_spread(
    h0: Heap,
    h: Heap,
    p: u32,
    f: u32,
    g: u32,
    z: Sketch,
    y: Sketch,
    x: Sketch,
    a: u32,
    b: u32,
)
    requires
        h.wf(),
        h.live(p),
        h0.spread_in(h, p, f, g),
        h.drawn(f, z, a, b),
        h.drawn(g, y, a, b),
        h.drawn(h0.at(p).b, x, a, b),
    ensures
        h.drawn(p, Sketch::app(Sketch::app(z, x), Sketch::app(y, x)), a, b),
{
    let (f1, g1) = choose|f1: u32, g1: u32| #[trigger]
        h.is_spread(h.follow(p), f1, g1, h0.at(p).b) && h.live(f1) && h.live(g1) && h.follow(f1)
            == h.follow(f) && h.follow(g1) == h.follow(g);
    let n = h.at(h.follow(p));
    lemma_drawn_end(h, f1, f, z, a, b);
    lemma_drawn_end(h, g1, g, y, a, b);
    crate::graph::lemma_follow(h.graph, n.a, h.graph.ranking());
    crate::graph::lemma_follow(h.graph, n.b, h.graph.ranking());
    assert(h.drawn(n.a, Sketch::app(z, x), a, b));
    assert(h.drawn(n.b, Sketch::app(y, x), a, b));
}

/// The nodes of `f x (g x)` are new.
proof fn lemma_spread_nodes(h: Heap, f: u32, g: u32, x: u32)
    requires
        h.wf(),
        h.live(f),
        h.live(g),
        h.live(x),
    ensures
        h.spread(f, g, x) matches Ok((h1, r)) ==> {
            &&& h1.is_spread(r, f, g, x)
            &&& !h.live(r) && !h.live(h1.at(r).a) && !h.live(h1.at(r).b)
            &&& forall|j: u32| #[trigger] h.live(j) ==> h1.live(j) && h1.at(j) == h.at(j)
        },
{
    let n1 = Node { tag: APP, a: f, b: x };
    let n2 = Node { tag: APP, a: g, b: x };
    crate::heap::lemma_alloc(h, n1);
    if let Ok((h1, fx)) = h.grow(n1) {
        assert(h1.live(f) && h1.live(g) && h1.live(x));
        crate::heap::lemma_alloc(h1, n2);
        if let Ok((h2, gx)) = h1.grow(n2) {
            let n3 = Node { tag: APP, a: fx, b: gx };
            assert(h1.live(fx));
            assert(h2.live(fx) && h2.live(gx));
            assert(!h.live(gx)) by {
                if h.live(gx) {
                    assert(h1.live(gx));
                }
            }
            crate::heap::lemma_alloc(h2, n3);
            if let Ok((h3, r)) = h2.grow(n3) {
                assert(h3.at(fx) == h2.at(fx) && h3.at(gx) == h2.at(gx));
                assert(h2.at(fx) == h1.at(fx));
                assert forall|j: u32| #[trigger] h.live(j) implies h3.live(j) && h3.at(j) == h.at(
                    j,
                ) by {
                    assert(h1.live(j));
                    assert(h2.live(j));
                }
                assert(!h.live(r)) by {
                    if h.live(r) {
                        assert(h1.live(r));
                        assert(h2.live(r));
                    }
                }
            }
        }
    }
}

/// Following two nodes changes no node that is no indirection.
proof fn lemma_chased_nodes(h: Heap, i: u32, j: u32)
    requires
        h.wf(),
        h.live(i),
        h.live(j),
    ensures
        ({
            let h2 = h.chase(i).chase(j);
            &&& h2.wf()
            &&& h.chase(i).follow(j) == h.follow(j)
            &&& forall|k: u32| #[trigger] h2.live(k) == h.live(k)
            &&& forall|k: u32| #[trigger]
                h.live(k) && h.tag(k) != IND ==> h.chase(i).at(k) == h.at(k) && h2.at(k) == h.at(k)
            &&& h.live(h.follow(i)) && h.live(h.follow(j))
            &&& h.follow(h.follow(i)) == h.follow(i) && h.follow(h.follow(j)) == h.follow(j)
        }),
{
    let h1 = h.chase(i);
    crate::heap::lemma_chase(h, i);
    assert(h1.live(j) == h.live(j));
    crate::heap::lemma_chase(h1, j);
    let rank = h.graph.ranking();
    assert(h.graph.ranked(rank));
    crate::graph::lemma_follow(h.graph, i, rank);
    crate::graph::lemma_follow(h.graph, j, rank);
    assert forall|k: u32| #[trigger] h.live(k) && h.tag(k) != IND implies h1.at(k) == h.at(k)
        && h1.chase(j).at(k) == h.at(k) by {
        assert(h1.live(k) == h.live(k));
    }
    assert forall|k: u32| #[trigger] h1.chase(j).live(k) == h.live(k) by {
        assert(h1.live(k) == h.live(k));
    }
}

/// A contraction, node by node: `I x`, `(K x) y` and `K x y`.
proof fn lemma_rewrites_project(m: Machine)
    requires
        m.wf(),
        m.heap.tag(m.n) == I || m.heap.tag(m.n) == K1 || m.heap.tag(m.n) == K,
        m.spine.len() >= m.width(),
        m.contract() is Ok,
    ensures
        m.contract() matches Ok(Some(m1)) && m.rewrites(m1.heap, m.app(m.width())),
{
    reveal(Machine::rewrites);
    crate::machine::lemma_contracts(m);
    reveal(Machine::contracts);
    let h = m.heap;
    let l = m.spine.len() as int;
    let w = m.width();
    let m1 = m.contract()->Ok_0->0;
    let h1 = m1.heap;
    let p = m.app(w);
    crate::machine::lemma_spine_term(m, l - 1);
    crate::machine::lemma_spine_term(m, l - w);
    let rank = h.graph.ranking();
    assert(h.graph.ranked(rank));
    if w == 2 {
        crate::machine::lemma_spine_rank(m, rank, l - 2, l - 1);
    }
    crate::graph::lemma_follow(h.graph, p, rank);
    assert(h.live(p) && h1.follow(p) == m1.n);
    assert(h.live(m.n));
    let q = m.app(1);
    let src = if h.tag(m.n) == K1 {
        h.at(m.n).a
    } else {
        h.at(q).b
    };
    assert(h.live(src));
    crate::heap::lemma_chase(h, src);
    crate::graph::lemma_follow(h.graph, src, rank);
    let x = h.follow(src);
    assert(h.live(x));
    assert(h1.follow(src) == x && h1.follow(x) == x);
    assert forall|j: u32| #[trigger] h.live(j) && h.tag(j) != IND && j != p implies h1.at(j)
        == h.at(j) || h.recorded(h1, j) by {
        assert(h.chase(src).at(j) == h.at(j));
        if w == 2 && j == q {
            assert(h1.at(q).tag == K1 && h1.at(q).a == x);
        }
    }
}

/// `f x (g x)` in place of the application number `j` of the spine, node by
/// node.
proof fn lemma_spread_at(m: Machine, j: int, a: u32, b: u32)
    requires
        m.wf(),
        0 <= j < m.spine.len(),
        m.heap.live(a),
        m.heap.live(b),
    ensures
        ({
            let h = m.heap;
            let p = m.spine[j];
            let h2 = h.chase(a).chase(b);
            let (f, g) = (h.follow(a), h.follow(b));
            &&& h2.at(p) == h.at(p)
            &&& h.chase(a).follow(b) == g
            &&& h.live(f) && h.live(g) && h.follow(f) == f && h.follow(g) == g
            &&& forall|k: u32| #[trigger]
                h.live(k) && h.tag(k) != IND ==> h.chase(a).at(k) == h.at(k)
            &&& h2.spread(f, g, h.at(p).b) matches Ok((h3, r)) ==> {
                let h4 = h3.redirect(p, r);
                &&& h4.is_spread(r, f, g, h.at(p).b)
                &&& !h.live(r) && !h.live(h4.at(r).a) && !h.live(h4.at(r).b)
                &&& forall|k: u32| #[trigger]
                    h.live(k) ==> h4.live(k) && (h.tag(k) != IND && k != p ==> h4.at(k) == h.at(k))
            }
        }),
{
    let h = m.heap;
    let p = m.spine[j];
    crate::machine::lemma_spine_term(m, j);
    lemma_chased_nodes(h, a, b);
    let h2 = h.chase(a).chase(b);
    let (f, g) = (h.follow(a), h.follow(b));
    let x = h.at(p).b;
    assert(h2.live(f) == h.live(f) && h2.live(g) == h.live(g) && h2.live(x) == h.live(x));
    assert(h2.live(p) == h.live(p));
    lemma_spread_nodes(h2, f, g, x);
    if let Ok((h3, r)) = h2.spread(f, g, x) {
        let h4 = h3.redirect(p, r);
        let n = h3.at(r);
        assert(h2.live(r) == h.live(r) && h2.live(n.a) == h.live(n.a) && h2.live(n.b) == h.live(
            n.b,
        ));
        assert(h4.at(r) == n && h4.at(n.a) == h3.at(n.a) && h4.at(n.b) == h3.at(n.b));
        assert(h4.graph.free == h3.graph.free);
        assert(h4.graph.nodes.len() == h3.graph.nodes.len());
        assert forall|k: u32| #[trigger] h.live(k) implies h4.live(k) && (h.tag(k) != IND && k
            != p ==> h4.at(k) == h.at(k)) by {
            assert(h2.live(k) == h.live(k));
            assert(h3.live(k));
        }
    }
}

/// What a contraction of `S f g x` leads to, given its nodes.
proof fn lemma_rewrites_by(m: Machine, h1: Heap, r: u32, w: int, a: u32, b: u32)
    requires
        m.wf(),
        m.contracts(w, h1, r),
        m.heap.live(a),
        m.heap.live(b),
        h1.is_spread(r, m.heap.follow(a), m.heap.follow(b), m.heap.at(m.app(w)).b),
    ensures
        m.heap.live(m.app(w)),
        m.heap.tag(m.app(w)) == APP,
        h1.wf(),
        h1.follow(m.app(w)) == r,
        forall|j: u32| #[trigger]
            m.heap.live(j) ==> h1.live(j) && h1.follow(j) == if m.heap.follow(j) == m.app(w) {
                r
            } else {
                m.heap.follow(j)
            },
        h1.live(m.heap.follow(a)),
        h1.live(m.heap.follow(b)),
        h1.follow(m.heap.follow(a)) == h1.follow(a),
        h1.follow(m.heap.follow(b)) == h1.follow(b),
        m.heap.spread_in(h1, m.app(w), a, b),
{
    reveal(Machine::contracts);
    let h = m.heap;
    let p = m.app(w);
    crate::machine::lemma_spine_term(m, m.spine.len() - w);
    let rank = h.graph.ranking();
    assert(h.graph.ranked(rank));
    crate::graph::lemma_follow(h.graph, p, rank);
    crate::graph::lemma_follow(h.graph, a, rank);
    crate::graph::lemma_follow(h.graph, b, rank);
    let (f, g) = (h.follow(a), h.follow(b));
    assert(h.live(p) && h.live(f) && h.live(g));
    assert(h1.is_spread(h1.follow(p), f, g, h.at(p).b));
}

proof fn lemma_rewrites_s2(m: Machine)
    requires
        m.wf(),
        m.heap.tag(m.n) == S2,
        m.spine.len() >= 1,
        m.spread_s2() is Ok,
    ensures
        m.rewrites(m.spread_s2()->Ok_0.heap, m.app(1)),
{
    reveal(Machine::rewrites);
    crate::machine::lemma_contracts(m);
    let h = m.heap;
    let l = m.spine.len() as int;
    let m1 = m.spread_s2()->Ok_0;
    crate::machine::lemma_spine_term(m, l - 1);
    assert(h.live(m.n));
    let (a, b) = (h.at(m.n).a, h.at(m.n).b);
    assert(h.live(a) && h.live(b));
    lemma_spread_at(m, l - 1, a, b);
    lemma_rewrites_by(m, m1.heap, m1.n, 1, a, b);
}

#[verifier::spinoff_prover]
proof fn lemma_rewrites_s1(m: Machine)
    requires
        m.wf(),
        m.heap.tag(m.n) == S1,
        m.spine.len() >= 2,
        m.spread_s1() is Ok,
    ensures
        m.rewrites(m.spread_s1()->Ok_0.heap, m.app(2)),
{
    reveal(Machine::rewrites);
    crate::machine::lemma_contracts(m);
    let h = m.heap;
    let l = m.spine.len() as int;
    let m1 = m.spread_s1()->Ok_0;
    let h1 = m1.heap;
    let (q, p) = (m.app(1), m.app(2));
    crate::machine::lemma_spine_term(m, l - 1);
    crate::machine::lemma_spine_term(m, l - 2);
    assert(h.live(m.n));
    let (a, b) = (h.at(m.n).a, h.at(q).b);
    assert(h.live(a) && h.live(b) && h.live(q));
    lemma_spread_at(m, l - 2, a, b);
    let (f, g) = (h.follow(a), h.follow(b));
    let (h3, r) = h.chase(a).chase(b).spread(f, g, h.at(p).b)->Ok_0;
    let h4 = h3.redirect(p, r);
    let n = Node { tag: S2, a: f, b: g };
    assert(h1 == h4.overwrite(q, n));
    assert(h4.live(q));
    assert(h1.at(r) == h4.at(r) && h1.at(h4.at(r).a) == h4.at(h4.at(r).a) && h1.at(h4.at(r).b)
        == h4.at(h4.at(r).b));
    assert(h1.is_spread(r, f, g, h.at(p).b));
    lemma_rewrites_by(m, h1, r, 2, a, b);
    assert forall|j: u32| #[trigger] h.live(j) && h.tag(j) != IND && j != p implies h1.at(j)
        == h.at(j) || h.recorded(h1, j) by {
        assert(h4.at(j) == h.at(j));
        if j == q {
            assert(h1.at(q) == n);
        }
    }
}

#[verifier::spinoff_prover]
#[verifier::rlimit(40)]
proof fn lemma_rewrites_s(m: Machine)
    requires
        m.wf(),
        m.heap.tag(m.n) == S,
        m.spine.len() >= 3,
        m.spread_s() is Ok,
    ensures
        m.rewrites(m.spread_s()->Ok_0.heap, m.app(3)),
{
    crate::machine::lemma_contracts(m);
    let h = m.heap;
    let l = m.spine.len() as int;
    let m1 = m.spread_s()->Ok_0;
    let h1 = m1.heap;
    let (t, q, p) = (m.app(1), m.app(2), m.app(3));
    crate::machine::lemma_spine_term(m, l - 1);
    crate::machine::lemma_spine_term(m, l - 2);
    crate::machine::lemma_spine_term(m, l - 3);
    let rank = h.graph.ranking();
    assert(h.graph.ranked(rank));
    crate::machine::lemma_spine_rank(m, rank, l - 2, l - 1);
    let (a, b) = (h.at(t).b, h.at(q).b);
    assert(h.live(a) && h.live(b) && h.live(q) && h.live(t));
    lemma_spread_at(m, l - 3, a, b);
    let (f, g) = (h.follow(a), h.follow(b));
    let (h3, r) = h.chase(a).chase(b).spread(f, g, h.at(p).b)->Ok_0;
    let h4 = h3.redirect(p, r);
    let n1 = Node { tag: S1, a: f, b: h4.at(t).b };
    let n2 = Node { tag: S2, a: f, b: g };
    let h5 = h4.overwrite(t, n1);
    assert(h1 == h5.overwrite(q, n2));
    assert(h4.live(q) && h4.live(t));
    let c = h4.at(r);
    assert(h5.at(r) == c && h5.at(c.a) == h4.at(c.a) && h5.at(c.b) == h4.at(c.b));
    assert(h1.at(r) == c && h1.at(c.a) == h4.at(c.a) && h1.at(c.b) == h4.at(c.b));
    assert(h1.is_spread(r, f, g, h.at(p).b));
    lemma_rewrites_by(m, h1, r, 3, a, b);
    assert(h5.at(t) == n1);
    assert(h1.at(t) == n1 && h1.at(q) == n2);
    assert(h.follow(h.at(q).a) == t && h.follow(h.at(t).a) == m.n && h.follow(h.at(p).a) == q);
    assert(h.recorded(h1, t));
    assert(h.recorded(h1, q));
    assert(h.replaced(h1, p));
    assert forall|j: u32| #[trigger] h.live(j) && h.tag(j) != IND && j != p implies h1.at(j)
        == h.at(j) || h.recorded(h1, j) by {
        assert(h4.at(j) == h.at(j));
        if j != q && j != t {
            assert(h5.at(j) == h4.at(j));
            assert(h1.at(j) == h5.at(j));
        }
    }
    assert(m.rewrites(h1, p)) by {
        reveal(Machine::rewrites);
    }
}

/// A contraction, node by node.
proof fn lemma_rewrites(m: Machine)
    requires
        m.wf(),
    ensures
        m.contract() matches Ok(Some(m1)) ==> m.rewrites(m1.heap, m.app(m.width())),
{
    if let Ok(Some(m1)) = m.contract() {
        let tag = m.heap.tag(m.n);
        if tag == I || tag == K1 || tag == K {
            lemma_rewrites_project(m);
        } else if tag == S {
            lemma_rewrites_s(m);
        } else if tag == S1 {
            lemma_rewrites_s1(m);
        } else {
            lemma_rewrites_s2(m);
        }
    }
}

/// Arenas that are alike draw the same.
proof fn lemma_drawn_alike(h: Heap, g: Heap, i: u32, d: Sketch, a: u32, b: u32)
    requires
        h.alike(g),
        h.live(i),
        h.live(a),
        h.live(b),
        h.drawn(i, d, a, b),
    ensures
        g.drawn(i, d, a, b),
    decreases d,
{
    crate::pause::lemma_alike(h, g);
    let rank = h.graph.ranking();
    assert(h.graph.ranked(rank));
    crate::graph::lemma_follow(h.graph, i, rank);
    let j = h.follow(i);
    assert(h.live(j));
    let n = h.at(j);
    assert(g.at(j) == n);
    if let Sketch::App(f, x) = d {
        assert(h.live(n.a));
        if n.tag == APP {
            assert(h.live(n.b));
            lemma_drawn_alike(h, g, n.a, *f, a, b);
            lemma_drawn_alike(h, g, n.b, *x, a, b);
        } else if n.tag == S2 {
            assert(h.live(n.b));
            lemma_drawn_alike(h, g, n.a, f.arg(), a, b);
            lemma_drawn_alike(h, g, n.b, *x, a, b);
        } else {
            lemma_drawn_alike(h, g, n.a, *x, a, b);
        }
    }
}

/// Building something else changes no drawing.
proof fn lemma_drawn_builds(h: Heap, g: Heap, k: nat, i: u32, d: Sketch, a: u32, b: u32)
    requires
        h.wf(),
        h.builds(g, k),
        h.live(i),
        h.live(a),
        h.live(b),
        h.drawn(i, d, a, b),
    ensures
        g.drawn(i, d, a, b),
    decreases d,
{
    let rank = h.graph.ranking();
    assert(h.graph.ranked(rank));
    crate::graph::lemma_follow(h.graph, i, rank);
    let j = h.follow(i);
    assert(h.live(j));
    let n = h.at(j);
    assert(g.at(j) == n);
    if let Sketch::App(f, x) = d {
        assert(h.live(n.a));
        if n.tag == APP {
            assert(h.live(n.b));
            lemma_drawn_builds(h, g, k, n.a, *f, a, b);
            lemma_drawn_builds(h, g, k, n.b, *x, a, b);
        } else if n.tag == S2 {
            assert(h.live(n.b));
            lemma_drawn_builds(h, g, k, n.a, f.arg(), a, b);
            lemma_drawn_builds(h, g, k, n.b, *x, a, b);
        } else {
            lemma_drawn_builds(h, g, k, n.a, *x, a, b);
        }
    }
}

/// What a run makes of a sketch that draws a node.
proof fn lemma_drawn_run(m: Machine, fuel: nat, i: u32, d: Sketch, a: u32, b: u32) -> (r: Sketch)
    requires
        m.wf(),
        m.heap.live(i),
        m.heap.live(a),
        m.heap.live(b),
        m.heap.drawn(i, d, a, b),
        d.typed(),
    ensures
        m.run(fuel) matches Ok((h, _)) ==> h.drawn(i, r, a, b),
        r.typed(),
        r.kind() == d.kind(),
        d.term().reduces(r.term()),
    decreases fuel,
{
    if fuel == 0 {
        crate::term::lemma_reduces_refl(d.term());
        d
    } else {
        let u = m.unwind();
        crate::machine::lemma_unwind(m);
        crate::pause::lemma_unwind_self(m);
        lemma_drawn_alike(m.heap, u.heap, i, d, a, b);
        assert(u.heap.live(i) && u.heap.live(a) && u.heap.live(b));
        if let Ok(Some(m1)) = u.contract() {
            lemma_rewrites(u);
            let p = u.app(u.width());
            let d1 = lemma_drawn_step(u, m1.heap, p, i, d, a, b);
            crate::machine::lemma_contract(u);
            assert(m1.heap.live(i) && m1.heap.live(a) && m1.heap.live(b)) by {
                reveal(Machine::rewrites);
            }
            let r = lemma_drawn_run(m1, (fuel - 1) as nat, i, d1, a, b);
            crate::term::lemma_par_reduces(d.term(), d1.term());
            crate::term::lemma_reduces_trans(d.term(), d1.term(), r.term());
            r
        } else {
            crate::term::lemma_reduces_refl(d.term());
            d
        }
    }
}

/// What evaluation makes of a sketch that draws a node.
proof fn lemma_drawn_eval(h: Heap, node: u32, fuel: nat, i: u32, d: Sketch, a: u32, b: u32) -> (r:
    Sketch)
    requires
        h.wf(),
        h.live(node),
        h.live(i),
        h.live(a),
        h.live(b),
        h.drawn(i, d, a, b),
        d.typed(),
    ensures
        h.eval(node, fuel) matches Ok((h1, _)) ==> h1.drawn(i, r, a, b),
        r.typed(),
        r.kind() == d.kind(),
        d.term().reduces(r.term()),
{
    reveal(Heap::eval);
    reveal(Heap::whnf);
    crate::machine::lemma_start(h, node);
    crate::pause::lemma_alike_chase(h, node);
    crate::pause::lemma_alike(h, h.chase(node));
    lemma_drawn_alike(h, h.chase(node), i, d, a, b);
    lemma_drawn_run(Machine::start(h, node), fuel, i, d, a, b)
}

impl Sketch {
    pub open spec fn head(self) -> Sketch
        decreases self,
    {
        match self {
            Sketch::Atom(..) => self,
            Sketch::App(f, _) => f.head(),
        }
    }

    pub open spec fn arity(self) -> nat
        decreases self,
    {
        match self {
            Sketch::Atom(..) => 0,
            Sketch::App(f, _) => f.arity() + 1,
        }
    }
}

/// A node and the sketch that draws it have the same head, unless a hole
/// stands there.
proof fn lemma_drawn_head(h: Heap, i: u32, d: Sketch, a: u32, b: u32)
    requires
        h.wf(),
        h.live(i),
        h.drawn(i, d, a, b),
        d.typed(),
        d is App || d.kind() is Arrow,
    ensures
        d.head() is Atom,
        ({
            let tag = d.head()->Atom_0;
            &&& tag == S || tag == K || tag == I
            &&& h.term(i).head() == Term::Atom(tag)
            &&& h.term(i).arity() == d.arity()
            &&& d.kind() is Value ==> d.arity() >= 1 && (tag == K ==> d.arity() >= 2) && (tag == S
                ==> d.arity() >= 3)
        }),
    decreases d,
{
    reveal_with_fuel(Sketch::typed, 5);
    reveal_with_fuel(Sketch::kind, 5);
    reveal_with_fuel(Sketch::head, 4);
    reveal_with_fuel(Sketch::arity, 4);
    reveal_with_fuel(Term::head, 4);
    reveal_with_fuel(Term::arity, 4);
    let rank = h.graph.ranking();
    assert(h.graph.ranked(rank));
    crate::graph::lemma_follow(h.graph, i, rank);
    let j = h.follow(i);
    assert(h.live(j));
    let n = h.at(j);
    match d {
        Sketch::Atom(tag, _) => {},
        Sketch::App(f, x) => {
            assert(h.live(n.a));
            if n.tag == APP {
                lemma_drawn_head(h, n.a, *f, a, b);
            }
        },
    }
}

/// A value in weak head normal form is what stands in a hole.
proof fn lemma_drawn_value(h: Heap, i: u32, d: Sketch, a: u32, b: u32)
    requires
        h.wf(),
        h.live(i),
        h.drawn(i, d, a, b),
        d.typed(),
        d.kind() is Value,
    ensures
        d is App ==> h.term(i).step() is Some,
        d is Atom ==> d->Atom_0 == FIRST || d->Atom_0 == SECOND,
{
    if d is App {
        lemma_drawn_head(h, i, d, a, b);
        crate::term::lemma_normal(h.term(i));
    }
}

impl Kind {
    /// What a pair hands its parts to.
    pub open spec fn taker() -> Kind {
        Kind::arrow(Kind::Value, Kind::arrow(Kind::Value, Kind::Value))
    }

    /// What a pair ignores.
    pub open spec fn dummy() -> Kind {
        Kind::arrow(Kind::Value, Kind::Value)
    }

    /// A pair.
    pub open spec fn pair() -> Kind {
        Kind::arrow(Kind::taker(), Kind::arrow(Kind::dummy(), Kind::Value))
    }
}

impl Sketch {
    /// `K x`, as a function of what is of the kind `k`.
    pub open spec fn constant(x: Sketch, k: Kind) -> Sketch {
        Sketch::app(Sketch::Atom(K, Kind::arrow(x.kind(), Kind::arrow(k, x.kind()))), x)
    }

    /// `S f g`
    pub open spec fn both(f: Sketch, g: Sketch) -> Sketch {
        let k = Kind::arrow(
            f.kind(),
            Kind::arrow(g.kind(), Kind::arrow(f.kind().from(), f.kind().to().to())),
        );
        Sketch::app(Sketch::app(Sketch::Atom(S, k), f), g)
    }

    /// A pair of what stands in the holes.
    pub open spec fn pair() -> Sketch {
        let t = Kind::taker();
        let hand = Sketch::both(
            Sketch::Atom(I, Kind::arrow(t, t)),
            Sketch::constant(Sketch::Atom(FIRST, Kind::Value), t),
        );
        let pair1 = Sketch::both(
            hand,
            Sketch::constant(Sketch::Atom(SECOND, Kind::Value), t),
        );
        let k = Sketch::Atom(
            K,
            Kind::arrow(Kind::Value, Kind::arrow(Kind::dummy(), Kind::Value)),
        );
        Sketch::both(Sketch::constant(k, t), pair1)
    }

    /// There is no hole.
    pub open spec fn closed(self) -> bool
        decreases self,
    {
        match self {
            Sketch::Atom(tag, _) => tag == S || tag == K || tag == I,
            Sketch::App(f, x) => f.closed() && x.closed(),
        }
    }
}

impl Heap {
    /// The node `p` is a pair of the very nodes `a` and `b`, as it was made or
    /// as evaluation has left it.
    pub open spec fn is_pair_of(self, p: u32, a: u32, b: u32) -> bool {
        exists|d: Sketch| #[trigger]
            self.drawn(p, d, a, b) && d.typed() && d.kind() == Kind::pair() && Sketch::pair().term()
                .reduces(d.term())
    }
}

/// The sketch of a pair is one.
proof fn lemma_pair_sketch()
    ensures
        Sketch::pair().typed(),
        Sketch::pair().kind() == Kind::pair(),
        Sketch::pair().term() == Term::pair(Term::Atom(FIRST), Term::Atom(SECOND)),
{
    reveal_with_fuel(Sketch::typed, 12);
    reveal_with_fuel(Sketch::kind, 12);
    reveal_with_fuel(Sketch::term, 12);
}

/// A node is drawn by what it stands for.
proof fn lemma_drawn_closed(h: Heap, i: u32, d: Sketch, a: u32, b: u32)
    requires
        h.wf(),
        h.live(i),
        d.closed(),
        h.term(i) == d.term(),
    ensures
        h.drawn(i, d, a, b),
    decreases d,
{
    reveal_with_fuel(Sketch::closed, 3);
    reveal_with_fuel(Sketch::term, 3);
    let rank = h.graph.ranking();
    assert(h.graph.ranked(rank));
    crate::graph::lemma_follow(h.graph, i, rank);
    let j = h.follow(i);
    assert(h.live(j));
    let n = h.at(j);
    if let Sketch::App(f, x) = d {
        assert(h.live(n.a));
        if n.tag == APP {
            assert(h.live(n.b));
            lemma_drawn_closed(h, n.a, *f, a, b);
            lemma_drawn_closed(h, n.b, *x, a, b);
        } else if n.tag == S2 {
            assert(h.live(n.b));
            lemma_drawn_closed(h, n.a, f.arg(), a, b);
            lemma_drawn_closed(h, n.b, *x, a, b);
        } else {
            lemma_drawn_closed(h, n.a, *x, a, b);
        }
    }
}

/// An application is drawn by the application of the sketches.
proof fn lemma_drawn_apply(h: Heap, f: u32, x: u32, df: Sketch, dx: Sketch, a: u32, b: u32)
    requires
        h.wf(),
        h.live(f),
        h.live(x),
        h.live(a),
        h.live(b),
        h.drawn(f, df, a, b),
        h.drawn(x, dx, a, b),
    ensures
        h.apply(f, x) matches Ok((h1, i)) ==> h.builds(h1, 1) && h1.live(i) && h1.drawn(
            i,
            Sketch::app(df, dx),
            a,
            b,
        ),
{
    crate::select::lemma_apply(h, f, x);
    crate::heap::lemma_alloc(h, Node { tag: APP, a: f, b: x });
    if let Ok((h1, i)) = h.apply(f, x) {
        lemma_drawn_builds(h, h1, 1, f, df, a, b);
        lemma_drawn_builds(h, h1, 1, x, dx, a, b);
        crate::graph::lemma_follow(h1.graph, i, h1.graph.ranking());
    }
}

/// A pair that is applied to two closed arguments.
proof fn lemma_drawn_question(
    h: Heap,
    p: u32,
    k: u32,
    dk: Sketch,
    d: Sketch,
    a: u32,
    b: u32,
)
    requires
        h.wf(),
        h.live(p),
        h.live(k),
        h.live(a),
        h.live(b),
        h.drawn(p, d, a, b),
        h.drawn(k, dk, a, b),
    ensures
        h.apply(p, k) matches Ok((h1, app1)) ==> (h1.intern_i() matches Ok((h2, i)) ==> (h2.apply(
            app1,
            i,
        ) matches Ok((h3, app2)) ==> h3.live(app2) && h3.live(p) && h3.live(a) && h3.live(b)
            && h3.wf() && h3.drawn(p, d, a, b) && h3.drawn(
            app2,
            Sketch::app(Sketch::app(d, dk), Sketch::Atom(I, Kind::dummy())),
            a,
            b,
        ))),
{
    lemma_drawn_apply(h, p, k, d, dk, a, b);
    if let Ok((h1, app1)) = h.apply(p, k) {
        lemma_drawn_builds(h, h1, 1, p, d, a, b);
        assert(h1.live(p) && h1.live(a) && h1.live(b));
        crate::intern::lemma_intern_i(h1);
        if let Ok((h2, i)) = h1.intern_i() {
            let di = Sketch::Atom(I, Kind::dummy());
            let d1 = Sketch::app(d, dk);
            lemma_drawn_builds(h1, h2, 1, app1, d1, a, b);
            lemma_drawn_builds(h1, h2, 1, p, d, a, b);
            lemma_drawn_closed(h2, i, di, a, b);
            assert(h2.live(app1) && h2.live(p) && h2.live(a) && h2.live(b));
            lemma_drawn_apply(h2, app1, i, d1, di, a, b);
            if let Ok((h3, app2)) = h2.apply(app1, i) {
                lemma_drawn_builds(h2, h3, 1, p, d, a, b);
            }
        }
    }
}

/// The answer of a pair to `K` or `K I`: what stands in the hole that the
/// question picks.
proof fn lemma_drawn_answer(
    h: Heap,
    app: u32,
    p: u32,
    fuel: nat,
    d: Sketch,
    dk: Sketch,
    hole: u8,
    k: nat,
    a: u32,
    b: u32,
)
    requires
        h.wf(),
        h.live(app),
        h.live(p),
        h.live(a),
        h.live(b),
        h.drawn(p, d, a, b),
        h.drawn(app, Sketch::app(Sketch::app(d, dk), Sketch::Atom(I, Kind::dummy())), a, b),
        d.typed(),
        d.kind() == Kind::pair(),
        Sketch::pair().term().reduces(d.term()),
        dk.typed(),
        dk.kind() == Kind::taker(),
        hole == FIRST || hole == SECOND,
        Term::app2(
            Term::pair(Term::Atom(FIRST), Term::Atom(SECOND)),
            dk.term(),
            Term::Atom(I),
        ).steps(k, Term::Atom(hole)),
    ensures
        h.eval(app, fuel) matches Ok((h1, (r, f))) ==> {
            &&& h1.is_pair_of(p, a, b)
            &&& f > 0 ==> f < fuel && r == h1.follow(if hole == FIRST {
                a
            } else {
                b
            })
        },
{
    reveal_with_fuel(Sketch::typed, 4);
    reveal_with_fuel(Sketch::kind, 4);
    reveal_with_fuel(Sketch::term, 4);
    let di = Sketch::Atom(I, Kind::dummy());
    let q = Sketch::app(Sketch::app(d, dk), di);
    let d1 = lemma_drawn_eval(h, app, fuel, p, d, a, b);
    let q1 = lemma_drawn_eval(h, app, fuel, app, q, a, b);
    crate::term::lemma_reduces_trans(Sketch::pair().term(), d.term(), d1.term());
    crate::select::lemma_eval(h, app, fuel);
    if let Ok((h1, (r, f))) = h.eval(app, fuel) {
        assert(h1.drawn(p, d1, a, b));
        if f > 0 {
            assert(h1.live(app));
            lemma_drawn_value(h1, app, q1, a, b);
            lemma_pair_sketch();
            let t = Term::pair(Term::Atom(FIRST), Term::Atom(SECOND));
            let whole = Term::app2(t, dk.term(), Term::Atom(I));
            crate::term::lemma_reduces_refl(dk.term());
            crate::term::lemma_reduces_refl(Term::Atom(I));
            crate::term::lemma_reduces_app(t, dk.term(), d.term(), dk.term());
            crate::term::lemma_reduces_app(
                Term::app(t, dk.term()),
                Term::Atom(I),
                Term::app(d.term(), dk.term()),
                Term::Atom(I),
            );
            crate::term::lemma_reduces_trans(whole, q.term(), q1.term());
            let (k1, w1) = crate::term::lemma_reduces_reaches(
                whole,
                q1.term(),
                k,
                Term::Atom(hole),
            );
            crate::term::lemma_reduces_normal(Term::Atom(hole), w1);
            assert(q1 is Atom);
            assert(q1.term() == Term::Atom(hole));
            assert(r == h1.follow(app)) by {
                reveal(Heap::eval);
            }
            crate::select::lemma_eval_idle(h, app, fuel);
            lemma_drawn_value(h, app, q, a, b);
        }
    }
}

/// The first part of a pair is the very node that it was made of, whatever was
/// taken from the pair before; it takes fuel, and the pair stays a pair of the
/// same nodes.
pub proof fn lemma_pair_fst_node(h: Heap, p: u32, a: u32, b: u32, fuel: nat)
    requires
        h.wf(),
        h.live(p),
        h.live(a),
        h.live(b),
        h.is_pair_of(p, a, b),
    ensures
        h.pair_fst(p, fuel) matches Ok((h1, (r, f))) ==> h1.is_pair_of(p, a, b) && (f > 0 ==> f
            < fuel && r == h1.follow(a)),
{
    reveal(Heap::pair_fst);
    let d = choose|d: Sketch| #[trigger]
        h.drawn(p, d, a, b) && d.typed() && d.kind() == Kind::pair()
            && Sketch::pair().term().reduces(d.term());
    crate::intern::lemma_intern_k(h);
    if let Ok((h1, k)) = h.intern_k() {
        let dk = Sketch::Atom(K, Kind::taker());
        lemma_drawn_closed(h1, k, dk, a, b);
        lemma_drawn_builds(h, h1, 1, p, d, a, b);
        assert(h1.live(p) && h1.live(a) && h1.live(b));
        lemma_drawn_question(h1, p, k, dk, d, a, b);
        if let Ok((h2, app)) = h.apply_fst(p) {
            crate::laws::lemma_pair_fst_steps(Term::Atom(FIRST), Term::Atom(SECOND));
            lemma_drawn_answer(h2, app, p, fuel, d, dk, FIRST, 8, a, b);
        }
    }
}

/// The second part of a pair is the very node that it was made of, whatever
/// was taken from the pair before; it takes fuel, and the pair stays a pair of
/// the same nodes.
pub proof fn lemma_pair_snd_node(h: Heap, p: u32, a: u32, b: u32, fuel: nat)
    requires
        h.wf(),
        h.live(p),
        h.live(a),
        h.live(b),
        h.is_pair_of(p, a, b),
    ensures
        h.pair_snd(p, fuel) matches Ok((h1, (r, f))) ==> h1.is_pair_of(p, a, b) && (f > 0 ==> f
            < fuel && r == h1.follow(b)),
{
    reveal(Heap::pair_snd);
    reveal_with_fuel(Sketch::typed, 3);
    reveal_with_fuel(Sketch::kind, 3);
    reveal_with_fuel(Sketch::term, 3);
    reveal_with_fuel(Sketch::closed, 3);
    let d = choose|d: Sketch| #[trigger]
        h.drawn(p, d, a, b) && d.typed() && d.kind() == Kind::pair()
            && Sketch::pair().term().reduces(d.term());
    crate::intern::lemma_intern_ki(h);
    if let Ok((h1, k)) = h.intern_ki() {
        let dk = Sketch::constant(Sketch::Atom(I, Kind::dummy()), Kind::Value);
        lemma_drawn_closed(h1, k, dk, a, b);
        lemma_drawn_builds(h, h1, 2, p, d, a, b);
        assert(h1.live(p) && h1.live(a) && h1.live(b));
        lemma_drawn_question(h1, p, k, dk, d, a, b);
        if let Ok((h2, app)) = h.apply_snd(p) {
            crate::laws::lemma_pair_snd_steps(Term::Atom(FIRST), Term::Atom(SECOND));
            lemma_drawn_answer(h2, app, p, fuel, d, dk, SECOND, 9, a, b);
        }
    }
}

impl Recipe {
    /// The recipe is that of the sketch, with `a` and `b` in the holes.
    pub open spec fn draws(self, d: Sketch, a: u32, b: u32) -> bool
        decreases self,
    {
        match self {
            Recipe::Leaf(tag) => d.is_atom(tag) && (tag == S || tag == K || tag == I),
            Recipe::Use(i) => (d.is_atom(FIRST) && i == a) || (d.is_atom(SECOND) && i == b),
            Recipe::App(f, x) => d is App && f.draws(d.fun(), a, b) && x.draws(d.arg(), a, b),
            Recipe::Arg(f, x) => d is App && f.draws(d.fun(), a, b) && x.draws(d.arg(), a, b),
        }
    }
}

/// What is built is drawn by the sketch of its recipe.
proof fn lemma_build_drawn(h: Heap, r: Recipe, d: Sketch, a: u32, b: u32)
    requires
        h.wf(),
        h.live(a),
        h.live(b),
        r.live_in(h),
        r.draws(d, a, b),
    ensures
        h.build(r) matches Ok((h1, i)) ==> h1.drawn(i, d, a, b),
    decreases r,
{
    crate::encode::lemma_build(h, r);
    match r {
        Recipe::Leaf(tag) => {
            crate::heap::lemma_alloc(h, Node::leaf(tag));
            if let Ok((h1, i)) = h.build(r) {
                crate::graph::lemma_follow(h1.graph, i, h1.graph.ranking());
            }
        },
        Recipe::Use(_) => {},
        Recipe::App(f, x) => {
            lemma_build_drawn(h, *f, d.fun(), a, b);
            crate::encode::lemma_build(h, *f);
            if let Ok((h1, i)) = h.build(*f) {
                crate::encode::lemma_recipe_frame(h, h1, *x);
                assert(h1.live(a) && h1.live(b));
                lemma_build_drawn(h1, *x, d.arg(), a, b);
                crate::encode::lemma_build(h1, *x);
                if let Ok((h2, j)) = h1.build(*x) {
                    lemma_drawn_builds(h1, h2, x.size(), i, d.fun(), a, b);
                    assert(h2.live(i) && h2.live(a) && h2.live(b));
                    lemma_drawn_apply(h2, i, j, d.fun(), d.arg(), a, b);
                }
            }
        },
        Recipe::Arg(f, x) => {
            lemma_build_drawn(h, *x, d.arg(), a, b);
            crate::encode::lemma_build(h, *x);
            if let Ok((h1, j)) = h.build(*x) {
                crate::encode::lemma_recipe_frame(h, h1, *f);
                assert(h1.live(a) && h1.live(b));
                lemma_build_drawn(h1, *f, d.fun(), a, b);
                crate::encode::lemma_build(h1, *f);
                if let Ok((h2, i)) = h1.build(*f) {
                    lemma_drawn_builds(h1, h2, f.size(), j, d.arg(), a, b);
                    assert(h2.live(j) && h2.live(a) && h2.live(b));
                    lemma_drawn_apply(h2, i, j, d.fun(), d.arg(), a, b);
                }
            }
        },
    }
}

/// What is made as a pair is a pair of the very nodes that it was made of.
pub proof fn lemma_make_pair_of(h: Heap, a: u32, b: u32)
    requires
        h.wf(),
        h.live(a),
        h.live(b),
    ensures
        h.build(Recipe::pair(a, b)) matches Ok((h1, p)) ==> h1.is_pair_of(p, a, b),
{
    reveal_with_fuel(Recipe::draws, 12);
    reveal_with_fuel(Recipe::live_in, 12);
    let r = Recipe::pair(a, b);
    let d = Sketch::pair();
    assert(r.draws(d, a, b));
    assert(r.live_in(h));
    lemma_build_drawn(h, r, d, a, b);
    lemma_pair_sketch();
    crate::term::lemma_reduces_refl(d.term());
    if let Ok((h1, p)) = h.build(r) {
        assert(h1.drawn(p, d, a, b));
    }
}

/// Taking the first part of a pair and then the second gives the very nodes
/// that it was made of, if those are weak head normal forms: the first
/// extraction does not spoil the pair. Both take fuel.
pub proof fn lemma_pair_parts(h: Heap, a: u32, b: u32, fuel1: nat, fuel2: nat)
    requires
        h.wf(),
        h.live(a),
        h.live(b),
        h.term(a).step() is None,
        h.term(b).step() is None,
        fuel1 > 9,
        fuel2 > 9,
        h.room() >= 77,
    ensures
        h.build(Recipe::pair(a, b)) matches Ok((h1, p)) && (h1.pair_fst(p, fuel1) matches Ok(
            (h2, (x, f1)),
        ) && x == h2.follow(a) && f1 < fuel1 && (h2.pair_snd(p, fuel2) matches Ok((h3, (y, f2)))
            && y == h3.follow(b) && f2 < fuel2)),
{
    let (s, t) = (h.term(a), h.term(b));
    crate::encode::lemma_make_pair(h, a, b);
    lemma_make_pair_of(h, a, b);
    let (h1, p) = h.build(Recipe::pair(a, b))->Ok_0;
    assert(h1.live(a) && h1.live(b));
    crate::term::lemma_reduces_refl(h1.term(p));
    crate::laws::lemma_pair_fst_law(h1, p, fuel1, s, t, 0, s);
    lemma_pair_fst_node(h1, p, a, b, fuel1);
    let (h2, (x, f1)) = h1.pair_fst(p, fuel1)->Ok_0;
    crate::laws::lemma_still(h1, h2, p, Term::pair(s, t));
    assert(h2.live(p) && h2.live(a) && h2.live(b));
    crate::laws::lemma_pair_snd_law(h2, p, fuel2, s, t, 0, t);
    lemma_pair_snd_node(h2, p, a, b, fuel2);
}

} // verus!
