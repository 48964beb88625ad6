//! The reduction machine: what the evaluator does to the graph, step by step.
//!
//! The machine walks down the function side of applications, keeps the path in
//! its spine, and contracts the redex that it finds at the end of it by
//! overwriting the outermost application of the redex.

use vstd::prelude::*;
use crate::heap::{AllocError, Heap, Outcome};
use crate::node::{APP, I, IND, K, K1, Node, S, S1, S2};
use crate::term::Term;

verus! {

broadcast use crate::heap::group_leads;

/// A state of the machine: the arena, the applications on the path from the
/// outermost one, and the node that they lead to.
pub struct Machine {
    pub heap: Heap,
    pub spine: Seq<u32>,
    pub n: u32,
}

impl Heap {
    /// Turns a node into an indirection to `x`.
    pub open spec fn redirect(self, i: u32, x: u32) -> Heap {
        self.overwrite(i, Node { tag: IND, a: x, b: self.at(i).b })
    }

    /// Builds `f x (g x)`.
    pub open spec fn spread(self, f: u32, g: u32, x: u32) -> Outcome<u32> {
        match self.grow(Node { tag: APP, a: f, b: x }) {
            Err(e) => Err(e),
            Ok((h1, fx)) => match h1.grow(Node { tag: APP, a: g, b: x }) {
                Err(e) => Err(e),
                Ok((h2, gx)) => h2.grow(Node { tag: APP, a: fx, b: gx }),
            },
        }
    }
}

impl Machine {
    /// The application `k` places from the inner end of the spine.
    pub open spec fn app(self, k: int) -> u32 {
        self.spine[self.spine.len() - k]
    }

    /// What the function side of the application number `k` leads to.
    pub open spec fn next(self, k: int) -> u32 {
        if k + 1 < self.spine.len() {
            self.spine[k + 1]
        } else {
            self.n
        }
    }

    pub open spec fn linked(self, k: int) -> bool {
        let p = self.spine[k];
        &&& self.heap.live(p)
        &&& self.heap.tag(p) == APP
        &&& self.heap.follow(self.heap.at(p).a) == self.next(k)
    }

    pub open spec fn wf(self) -> bool {
        &&& self.heap.wf()
        &&& self.heap.live(self.n)
        &&& self.heap.tag(self.n) != IND
        &&& forall|k: int| 0 <= k < self.spine.len() ==> #[trigger] self.linked(k)
    }

    /// The outermost node.
    pub open spec fn outer(self) -> u32 {
        if self.spine.len() > 0 {
            self.spine[0]
        } else {
            self.n
        }
    }

    /// Goes from an application to its function.
    pub open spec fn descend(self) -> Machine {
        let a = self.heap.at(self.n).a;
        Machine {
            heap: self.heap.chase(a),
            spine: self.spine.push(self.n),
            n: self.heap.follow(a),
        }
    }

    /// Goes down to the first node that is no application.
    pub open spec fn unwind(self) -> Machine
        decreases self.heap.term(self.n),
        when self.wf()
    {
        if self.heap.tag(self.n) == APP {
            proof {
                lemma_descend(self);
            }
            self.descend().unwind()
        } else {
            self
        }
    }

    /// Continues at `n`, without the `k` innermost applications.
    pub open spec fn resume(self, k: int, heap: Heap, n: u32) -> Machine {
        Machine { heap, spine: self.spine.take(self.spine.len() - k), n }
    }

    /// `I x` and `(K x) y` become `x`, the end of the indirections from `src`.
    pub open spec fn project(self, src: u32) -> Machine {
        let x = self.heap.follow(src);
        self.resume(1, self.heap.chase(src).redirect(self.app(1), x), x)
    }

    /// `K x y` becomes `x`, and `K x` is recorded as such.
    pub open spec fn project_k(self) -> Machine {
        let src = self.heap.at(self.app(1)).b;
        let x = self.heap.follow(src);
        let h = self.heap.chase(src).redirect(self.app(2), x);
        self.resume(2, h.overwrite(self.app(1), Node { tag: K1, a: x, b: h.at(self.app(1)).b }), x)
    }

    /// `(S f g) x` becomes `f x (g x)`.
    pub open spec fn spread_s2(self) -> Result<Machine, AllocError> {
        let p = self.app(1);
        let f = self.heap.follow(self.heap.at(self.n).a);
        let h1 = self.heap.chase(self.heap.at(self.n).a);
        let g = h1.follow(h1.at(self.n).b);
        let h2 = h1.chase(h1.at(self.n).b);
        match h2.spread(f, g, h2.at(p).b) {
            Err(e) => Err(e),
            Ok((h3, r)) => Ok(self.resume(1, h3.redirect(p, r), r)),
        }
    }

    /// `(S f) g x` becomes `f x (g x)`, and `S f g` is recorded as such.
    pub open spec fn spread_s1(self) -> Result<Machine, AllocError> {
        let q = self.app(1);
        let p = self.app(2);
        let f = self.heap.follow(self.heap.at(self.n).a);
        let h1 = self.heap.chase(self.heap.at(self.n).a);
        let g = h1.follow(h1.at(q).b);
        let h2 = h1.chase(h1.at(q).b);
        match h2.spread(f, g, h2.at(p).b) {
            Err(e) => Err(e),
            Ok((h3, r)) => Ok(
                self.resume(2, h3.redirect(p, r).overwrite(q, Node { tag: S2, a: f, b: g }), r),
            ),
        }
    }

    /// `S f g x` becomes `f x (g x)`, and `S f` and `S f g` are recorded as
    /// such.
    pub open spec fn spread_s(self) -> Result<Machine, AllocError> {
        let t = self.app(1);
        let q = self.app(2);
        let p = self.app(3);
        let f = self.heap.follow(self.heap.at(t).b);
        let h1 = self.heap.chase(self.heap.at(t).b);
        let g = h1.follow(h1.at(q).b);
        let h2 = h1.chase(h1.at(q).b);
        match h2.spread(f, g, h2.at(p).b) {
            Err(e) => Err(e),
            Ok((h3, r)) => {
                let h4 = h3.redirect(p, r);
                let h5 = h4.overwrite(t, Node { tag: S1, a: f, b: h4.at(t).b });
                Ok(self.resume(3, h5.overwrite(q, Node { tag: S2, a: f, b: g }), r))
            },
        }
    }

    /// Contracts the redex at the inner end, if there is one.
    pub open spec fn contract(self) -> Result<Option<Machine>, AllocError> {
        let tag = self.heap.tag(self.n);
        let l = self.spine.len();
        if tag == I && l >= 1 {
            Ok(Some(self.project(self.heap.at(self.app(1)).b)))
        } else if tag == K && l >= 2 {
            Ok(Some(self.project_k()))
        } else if tag == K1 && l >= 1 {
            Ok(Some(self.project(self.heap.at(self.n).a)))
        } else if tag == S && l >= 3 {
            match self.spread_s() {
                Ok(m) => Ok(Some(m)),
                Err(e) => Err(e),
            }
        } else if tag == S1 && l >= 2 {
            match self.spread_s1() {
                Ok(m) => Ok(Some(m)),
                Err(e) => Err(e),
            }
        } else if tag == S2 && l >= 1 {
            match self.spread_s2() {
                Ok(m) => Ok(Some(m)),
                Err(e) => Err(e),
            }
        } else {
            Ok(None)
        }
    }

    /// Reduces until no redex is left or the fuel is used up, one unit for
    /// each contraction. The value is the outermost node, or the node that the
    /// last contraction led to, and the fuel that is left.
    pub open spec fn run(self, fuel: nat) -> Outcome<(u32, nat)>
        decreases fuel,
    {
        if fuel == 0 {
            Ok((self.heap, (self.n, 0)))
        } else {
            let m = self.unwind();
            match m.contract() {
                Err(e) => Err(e),
                Ok(Some(m1)) => m1.run((fuel - 1) as nat),
                Ok(None) => Ok((m.heap, (m.outer(), fuel))),
            }
        }
    }

    /// The machine at a node, with nothing on its spine.
    pub open spec fn start(h: Heap, node: u32) -> Machine {
        Machine { heap: h.chase(node), spine: Seq::empty(), n: h.follow(node) }
    }
}

impl Heap {
    /// Reduction to weak head normal form.
    #[verifier::opaque]
    pub open spec fn whnf(self, node: u32, fuel: nat) -> Outcome<(u32, nat)> {
        Machine::start(self, node).run(fuel)
    }
}

/// Going down keeps the machine well formed, and changes no expression.
pub proof fn lemma_descend(m: Machine)
    requires
        m.wf(),
        m.heap.tag(m.n) == APP,
    ensures
        m.descend().wf(),
        m.descend().heap.term(m.descend().n) == m.heap.term(m.n).fun(),
        m.heap.term(m.n).is_app(),
        m.descend().outer() == m.outer(),
        decreases_to!(m.heap.term(m.n) => m.descend().heap.term(m.descend().n)),
{
    let a = m.heap.at(m.n).a;
    assert(m.heap.live(a));
    crate::heap::lemma_chase(m.heap, a);
    crate::graph::lemma_follow(m.heap.graph, a, m.heap.graph.ranking());
    let m1 = m.descend();
    assert forall|k: int| 0 <= k < m1.spine.len() implies #[trigger] m1.linked(k) by {
        if k < m.spine.len() {
            assert(m.linked(k));
            assert(m.heap.live(m.heap.at(m.spine[k]).a));
        }
    }
}

/// Along the spine the ranks fall.
pub proof fn lemma_spine_rank(m: Machine, rank: Seq<nat>, j: int, k: int)
    requires
        m.wf(),
        m.heap.graph.ranked(rank),
        0 <= j <= k < m.spine.len(),
    ensures
        rank[m.n as int] < rank[m.spine[k] as int],
        j < k ==> rank[m.spine[k] as int] < rank[m.spine[j] as int],
    decreases m.spine.len() - j,
{
    assert(m.linked(j));
    let a = m.heap.at(m.spine[j]).a;
    assert(m.heap.live(a));
    crate::graph::lemma_follow(m.heap.graph, a, rank);
    if j < k {
        lemma_spine_rank(m, rank, j + 1, k);
    } else if k + 1 < m.spine.len() {
        lemma_spine_rank(m, rank, k + 1, k + 1);
    }
}

/// An application of the spine stands for what it leads to, applied to its
/// argument.
pub proof fn lemma_spine_term(m: Machine, j: int)
    requires
        m.wf(),
        0 <= j < m.spine.len(),
    ensures
        m.heap.live(m.spine[j]),
        m.heap.tag(m.spine[j]) == APP,
        m.heap.live(m.heap.at(m.spine[j]).a),
        m.heap.live(m.heap.at(m.spine[j]).b),
        m.heap.follow(m.heap.at(m.spine[j]).a) == m.next(j),
        m.heap.term(m.spine[j]) == Term::app(
            m.heap.term(m.next(j)),
            m.heap.term(m.heap.at(m.spine[j]).b),
        ),
{
    assert(m.linked(j));
    let a = m.heap.at(m.spine[j]).a;
    assert(m.heap.live(a));
    crate::graph::lemma_follow(m.heap.graph, a, m.heap.graph.ranking());
}

/// A reduction inside the spine is the leftmost reduction of the expressions
/// around it.
proof fn lemma_around(m: Machine, k: int, h: Heap, n: u32, j: int)
    requires
        m.wf(),
        m.contracts(k, h, n),
        0 <= j <= m.spine.len() - k,
    ensures
        m.heap.term(m.spine[j]).step() is Some,
        m.heap.term(m.spine[j]).step()->0.par(h.term(m.spine[j])),
    decreases m.spine.len() - j,
{
    reveal(Machine::contracts);
    let p = m.spine[j];
    lemma_spine_term(m, j);
    if j == m.spine.len() - k {
        crate::term::lemma_par_refl(h.term(p));
    } else {
        lemma_around(m, k, h, n, j + 1);
        lemma_spine_term(m, j + 1);
        let q = m.spine[j + 1];
        let b = m.heap.at(p).b;
        crate::term::lemma_step_app(m.heap.term(q), m.heap.term(b));
        crate::term::lemma_par_app(
            m.heap.term(q).step()->0,
            m.heap.term(b),
            h.term(q),
            h.term(b),
        );
        assert(h.at(p) == m.heap.at(p));
        let a = m.heap.at(p).a;
        assert(h.live(a));
        assert(h.live(p));
        assert(h.follow(a) == if q == m.app(k) { n } else { q });
        crate::graph::lemma_follow(h.graph, a, h.graph.ranking());
        assert(h.live(q));
        crate::graph::lemma_follow(h.graph, q, h.graph.ranking());
        if q != m.app(k) {
        } else {
            assert(h.follow(q) == n);
        }
        assert(h.term(a) == h.term(q));
    }
}

impl Machine {
    /// `h` is the arena after the redex at the application `app(k)` was
    /// replaced by what it reduces to, which `n` stands for.
    #[verifier::opaque]
    pub open spec fn contracts(self, k: int, h: Heap, n: u32) -> bool {
        let p = self.app(k);
        &&& 1 <= k <= self.spine.len()
        &&& h.wf()
        &&& forall|i: u32| #[trigger]
            self.heap.live(i) ==> h.live(i) && self.heap.term(i).par(h.term(i)) && h.follow(i)
                == if self.heap.follow(i) == p {
                n
            } else {
                self.heap.follow(i)
            }
        &&& forall|j: int|
            0 <= j < self.spine.len() - k ==> h.at(#[trigger] self.spine[j]) == self.heap.at(
                self.spine[j],
            )
        &&& self.heap.term(p).step() == Some(h.term(p))
        &&& h.live(n)
        &&& h.tag(n) != IND
    }
}

/// After a contraction the machine is well formed, and the outermost
/// expression has made its leftmost reduction.
proof fn lemma_resume(m: Machine, k: int, h: Heap, n: u32)
    requires
        m.wf(),
        m.contracts(k, h, n),
    ensures
        m.resume(k, h, n).wf(),
        m.heap.term(m.outer()).step() is Some,
        m.heap.term(m.outer()).step()->0.par(h.term(m.resume(k, h, n).outer())),
        forall|i: u32| #[trigger]
            m.heap.live(i) && m.heap.follow(i) == m.outer() ==> h.follow(i) == m.resume(
                k,
                h,
                n,
            ).outer(),
{
    reveal(Machine::contracts);
    let m1 = m.resume(k, h, n);
    let p = m.app(k);
    let rank = m.heap.graph.ranking();
    assert(m.linked(m.spine.len() - k));
    crate::graph::lemma_follow(m.heap.graph, p, rank);
    crate::graph::lemma_follow(h.graph, p, h.graph.ranking());
    assert(h.follow(p) == n);
    assert forall|j: int| 0 <= j < m1.spine.len() implies #[trigger] m1.linked(j) by {
        lemma_spine_term(m, j);
        assert(h.at(m.spine[j]) == m.heap.at(m.spine[j]));
        let a = m.heap.at(m.spine[j]).a;
        assert(h.live(m.spine[j]));
        assert(m.heap.live(a));
        if j + 1 < m1.spine.len() {
            lemma_spine_rank(m, rank, j + 1, m.spine.len() - k);
        }
    }
    lemma_around(m, k, h, n, 0);
    if m1.spine.len() > 0 {
        lemma_spine_rank(m, rank, 0, m.spine.len() - k);
    }
}

/// Building `f x (g x)`.
proof fn lemma_spread(h: Heap, f: u32, g: u32, x: u32, rank: Seq<nat>, v: nat) -> (rank1: Seq<nat>)
    requires
        h.wf(),
        h.graph.ranked(rank),
        h.live(f),
        h.live(g),
        h.live(x),
        rank[f as int] < v,
        rank[g as int] < v,
        rank[x as int] < v,
    ensures
        h.spread(f, g, x) is Ok <==> h.room() >= 3,
        h.spread(f, g, x) matches Ok((h1, r)) ==> {
            &&& h.leads_to(h1)
            &&& h1.room() == h.room() - 3
            &&& h1.graph.ranked(rank1)
            &&& rank1[r as int] == v + 1
            &&& forall|j: u32| #[trigger]
                h.live(j) ==> h1.live(j) && h1.at(j) == h.at(j) && h1.term(j) == h.term(j)
                    && h1.follow(j) == h.follow(j) && rank1[j as int] == rank[j as int]
            &&& h1.live(r)
            &&& h1.tag(r) == APP
            &&& h1.term(r) == Term::app(
                Term::app(h.term(f), h.term(x)),
                Term::app(h.term(g), h.term(x)),
            )
        },
{
    let n1 = Node { tag: APP, a: f, b: x };
    let n2 = Node { tag: APP, a: g, b: x };
    let r1 = crate::heap::lemma_grow_terms(h, n1, rank, v);
    if let Ok((h1, fx)) = h.grow(n1) {
        assert(h1.live(g) && h1.live(x) && h1.live(f));
        let r2 = crate::heap::lemma_grow_terms(h1, n2, r1, v);
        if let Ok((h2, gx)) = h1.grow(n2) {
            let n3 = Node { tag: APP, a: fx, b: gx };
            assert(h1.live(fx));
            assert(h2.live(fx) && h2.live(gx));
            let r3 = crate::heap::lemma_grow_terms(h2, n3, r2, v + 1);
            if let Ok((h3, r)) = h2.grow(n3) {
                assert forall|j: u32| #[trigger] h.live(j) implies h3.live(j) && h3.at(j) == h.at(
                    j,
                ) && h3.term(j) == h.term(j) && h3.follow(j) == h.follow(j) && r3[j as int]
                    == rank[j as int] by {
                    assert(h1.live(j));
                    assert(h2.live(j));
                }
            }
            r3
        } else {
            r2
        }
    } else {
        r1
    }
}

/// `I x` and `(K x) y`.
proof fn lemma_project(m: Machine, src: u32)
    requires
        m.wf(),
        m.spine.len() >= 1,
        m.heap.live(src),
        m.heap.graph.ranking()[src as int] < m.heap.graph.ranking()[m.app(1) as int],
        m.heap.term(m.app(1)).step() == Some(m.heap.term(src)),
        m.heap.term(m.app(1)).par(m.heap.term(src)),
    ensures
        m.contracts(1, m.project(src).heap, m.project(src).n),
        m.heap.leads_to(m.project(src).heap),
        m.project(src).heap.room() == m.heap.room(),
{
    reveal(Machine::contracts);
    let rank = m.heap.graph.ranking();
    assert(m.heap.graph.ranked(rank));
    let p = m.app(1);
    let h0 = m.heap;
    let h1 = h0.chase(src);
    let x = h0.follow(src);
    lemma_spine_term(m, m.spine.len() - 1);
    crate::heap::lemma_chase(h0, src);
    crate::graph::lemma_follow(h0.graph, src, rank);
    let n = Node { tag: IND, a: x, b: h1.at(p).b };
    assert(h1.at(p) == h0.at(p));
    assert(h1.live(p));
    assert(h1.live(x));
    assert(h0.live(x));
    assert(h1.live(h1.at(p).b));
    crate::heap::lemma_overwrite(h1, p, n, rank);
    let h2 = h1.overwrite(p, n);
    assert(h2.live(x));
    assert(h2.at(x) == h1.at(x));
    assert forall|j: int| 0 <= j < m.spine.len() - 1 implies h2.at(#[trigger] m.spine[j]) == h0.at(
        m.spine[j],
    ) by {
        lemma_spine_rank(m, rank, j, m.spine.len() - 1);
        lemma_spine_term(m, j);
        assert(h1.at(m.spine[j]) == h0.at(m.spine[j]));
    }
    assert forall|i: u32| #[trigger] h0.live(i) implies h2.live(i) && h0.term(i).par(h2.term(i))
        && h2.follow(i) == if h0.follow(i) == p {
        x
    } else {
        h0.follow(i)
    } by {
        assert(h1.live(i));
        assert(h2.live(i) == h1.live(i));
    }
}

/// `K x y`.
proof fn lemma_project_k(m: Machine)
    requires
        m.wf(),
        m.spine.len() >= 2,
        m.heap.tag(m.n) == K,
    ensures
        m.contracts(2, m.project_k().heap, m.project_k().n),
        m.heap.leads_to(m.project_k().heap),
        m.project_k().heap.room() == m.heap.room(),
{
    reveal(Machine::contracts);
    let rank = m.heap.graph.ranking();
    assert(m.heap.graph.ranked(rank));
    let l = m.spine.len() as int;
    let q = m.app(1);
    let p = m.app(2);
    let h0 = m.heap;
    let src = h0.at(q).b;
    let h1 = h0.chase(src);
    let x = h0.follow(src);
    lemma_spine_term(m, l - 1);
    lemma_spine_term(m, l - 2);
    lemma_spine_rank(m, rank, l - 2, l - 1);
    crate::heap::lemma_chase(h0, src);
    crate::graph::lemma_follow(h0.graph, src, rank);
    let n = Node { tag: IND, a: x, b: h1.at(p).b };
    assert(h1.at(p) == h0.at(p));
    assert(h1.at(q) == h0.at(q));
    assert(h1.live(p) && h1.live(x) && h1.live(q) && h1.live(src));
    assert(h0.live(x));
    assert(h1.live(h1.at(p).b));
    assert(h0.term(p) == Term::app2(Term::Atom(K), h0.term(src), h0.term(h0.at(p).b)));
    crate::term::lemma_par_refl(h0.term(src));
    crate::heap::lemma_overwrite(h1, p, n, rank);
    let h2 = h1.overwrite(p, n);
    assert(h2.at(q) == h1.at(q));
    assert(h2.live(x) && h2.live(q) && h2.live(src));
    let n2 = Node { tag: K1, a: x, b: h2.at(q).b };
    crate::term::lemma_par_refl(h2.term(q));
    assert(h2.term(q) == h1.term(q));
    crate::heap::lemma_overwrite(h2, q, n2, rank);
    let h3 = h2.overwrite(q, n2);
    assert(h3.live(x) && h3.live(p));
    assert(h2.at(x) == h1.at(x));
    assert(h3.at(x) == h2.at(x));
    assert forall|j: int| 0 <= j < l - 2 implies h3.at(#[trigger] m.spine[j]) == h0.at(
        m.spine[j],
    ) by {
        lemma_spine_rank(m, rank, j, l - 1);
        lemma_spine_rank(m, rank, j, l - 2);
        lemma_spine_term(m, j);
        assert(h1.at(m.spine[j]) == h0.at(m.spine[j]));
        assert(h2.at(m.spine[j]) == h1.at(m.spine[j]));
    }
    assert forall|i: u32| #[trigger] h0.live(i) implies h3.live(i) && h0.term(i).par(h3.term(i))
        && h3.follow(i) == if h0.follow(i) == p {
        x
    } else {
        h0.follow(i)
    } by {
        assert(h1.live(i));
        assert(h2.live(i) == h1.live(i));
        assert(h3.live(i) == h2.live(i));
    }
}

impl Heap {
    /// `h` is `self` after chasing some indirections.
    #[verifier::opaque]
    pub open spec fn chased(self, h: Heap, rank: Seq<nat>) -> bool {
        &&& self.leads_to(h)
        &&& h.room() == self.room()
        &&& h.graph.ranked(rank)
        &&& forall|j: u32| #[trigger]
            self.live(j) ==> {
                &&& h.live(j)
                &&& self.tag(j) != IND ==> h.at(j) == self.at(j)
                &&& h.tag(j) == self.tag(j)
                &&& h.term(j) == self.term(j)
                &&& h.follow(j) == self.follow(j)
            }
    }
}

/// Following two indirections.
proof fn lemma_chase2(h: Heap, i: u32, j: u32)
    requires
        h.wf(),
        h.live(i),
        h.live(j),
    ensures
        h.chased(h.chase(i).chase(j), h.graph.ranking()),
        h.live(h.follow(i)),
        h.live(h.follow(j)),
        h.tag(h.follow(i)) != IND,
        h.tag(h.follow(j)) != IND,
        h.term(h.follow(i)) == h.term(i),
        h.term(h.follow(j)) == h.term(j),
        h.chase(i).follow(j) == h.follow(j),
        h.graph.rank(h.follow(i)) <= h.graph.rank(i),
        h.graph.rank(h.follow(j)) <= h.graph.rank(j),
{
    reveal(Heap::chased);
    let rank = h.graph.ranking();
    assert(h.graph.ranked(rank));
    let h1 = h.chase(i);
    let h2 = h1.chase(j);
    crate::heap::lemma_chase(h, i);
    assert(h1.live(j));
    crate::heap::lemma_chase(h1, j);
    crate::graph::lemma_follow(h.graph, i, rank);
    crate::graph::lemma_follow(h.graph, j, rank);
    assert forall|k: u32| #[trigger] h.live(k) implies {
        &&& h2.live(k)
        &&& h.tag(k) != IND ==> h2.at(k) == h.at(k)
        &&& h2.tag(k) == h.tag(k)
        &&& h2.term(k) == h.term(k)
        &&& h2.follow(k) == h.follow(k)
    } by {
        assert(h1.live(k));
        assert(h2.live(k));
        assert(h1.at(k).tag == h.at(k).tag);
        assert(h2.at(k).tag == h1.at(k).tag);
    }
}

/// Replacing the application `app(k)`, which stands for `S f g x`.
#[verifier::spinoff_prover]
proof fn lemma_spread_at(m: Machine, k: int, h2: Heap, f: u32, g: u32) -> (rank1: Seq<nat>)
    requires
        m.wf(),
        1 <= k <= m.spine.len(),
        m.heap.chased(h2, m.heap.graph.ranking()),
        m.heap.live(f),
        m.heap.live(g),
        m.heap.graph.rank(f) < m.heap.graph.rank(m.app(k)),
        m.heap.graph.rank(g) < m.heap.graph.rank(m.app(k)),
        m.heap.term(m.app(k)) == Term::app(
            Term::app2(Term::Atom(S), m.heap.term(f), m.heap.term(g)),
            m.heap.term(m.heap.at(m.app(k)).b),
        ),
    ensures
        h2.spread(f, g, h2.at(m.app(k)).b) is Ok <==> m.heap.room() >= 3,
        h2.spread(f, g, h2.at(m.app(k)).b) matches Ok((h3, r)) ==> {
            let h4 = h3.redirect(m.app(k), r);
            &&& m.contracts(k, h4, r)
            &&& m.heap.leads_to(h4)
            &&& h4.room() == m.heap.room() - 3
            &&& h4.graph.ranked(rank1)
            &&& !m.heap.live(r)
            &&& forall|j: u32| #[trigger]
                m.heap.live(j) ==> {
                    &&& rank1[j as int] == 4 * m.heap.graph.rank(j)
                    &&& m.heap.tag(j) != IND && j != m.app(k) ==> h4.at(j) == m.heap.at(j)
                    &&& m.heap.graph.rank(j) < m.heap.graph.rank(m.app(k)) ==> h4.term(j)
                        == m.heap.term(j)
                }
        },
{
    reveal(Heap::chased);
    let h0 = m.heap;
    let rank0 = h0.graph.ranking();
    assert(h0.graph.ranked(rank0));
    let l = m.spine.len() as int;
    let p = m.app(k);
    lemma_spine_term(m, l - k);
    let rank = crate::heap::lemma_rank_scale(h2.graph, rank0, 4);
    assert(h2.at(p) == h0.at(p));
    let x = h0.at(p).b;
    assert(h0.live(x));
    assert(h2.live(x) && h2.live(f) && h2.live(g) && h2.live(p));
    let v = (rank[p as int] - 3) as nat;
    assert(rank[f as int] < v && rank[g as int] < v && rank[x as int] < v);
    let rank1 = lemma_spread(h2, f, g, x, rank, v);
    if let Ok((h3, r)) = h2.spread(f, g, x) {
        assert(!h0.live(r)) by {
            if h0.live(r) {
                assert(h2.live(r));
                assert(rank1[r as int] == rank[r as int]);
                assert(rank[r as int] == 4 * rank0[r as int]);
                assert(rank[p as int] == 4 * rank0[p as int]);
                assert(v + 1 == rank[p as int] - 2);
            }
        }
        let n = Node { tag: IND, a: r, b: h3.at(p).b };
        assert(h3.live(p) && h3.live(x) && h3.live(r));
        assert(h3.at(p) == h2.at(p));
        assert(h3.term(p) == h0.term(p));
        crate::term::lemma_par_refl(h0.term(f));
        crate::term::lemma_par_refl(h0.term(g));
        crate::term::lemma_par_refl(h0.term(x));
        assert(h0.term(p).par(h3.term(r)));
        crate::heap::lemma_overwrite(h3, p, n, rank1);
        let h4 = h3.overwrite(p, n);
        assert(h4.live(r));
        assert(h4.at(r) == h3.at(r));
        assert(h0.term(p).step() == Some(h4.term(p)));
        assert forall|i: u32| #[trigger] h0.live(i) implies {
            &&& h4.live(i)
            &&& h0.term(i).par(h4.term(i))
            &&& h4.follow(i) == if h0.follow(i) == p { r } else { h0.follow(i) }
            &&& rank1[i as int] == 4 * h0.graph.rank(i)
            &&& h0.tag(i) != IND && i != p ==> h4.at(i) == h0.at(i)
            &&& h0.graph.rank(i) < h0.graph.rank(p) ==> h4.term(i) == h0.term(i)
        } by {
            assert(h2.live(i));
            assert(h3.live(i));
            assert(h4.live(i));
        }
        assert forall|j: int| 0 <= j < l - k implies h4.at(#[trigger] m.spine[j]) == h0.at(
            m.spine[j],
        ) by {
            lemma_spine_rank(m, rank0, j, l - k);
            lemma_spine_term(m, j);
        }
        assert(m.contracts(k, h4, r)) by {
            reveal(Machine::contracts);
        }
    }
    rank1
}

/// Recording a partial application that was found on the way changes no
/// expression.
proof fn lemma_record(m: Machine, k: int, h: Heap, r: u32, q: u32, n: Node, rank: Seq<nat>)
    requires
        m.wf(),
        m.contracts(k, h, r),
        m.heap.leads_to(h),
        h.graph.ranked(rank),
        !m.heap.live(r),
        m.heap.live(q),
        m.heap.tag(q) == APP,
        h.tag(q) == APP,
        m.heap.graph.rank(q) < m.heap.graph.rank(m.app(k)),
        n.tag != IND,
        forall|c: u32| #[trigger] n.child(c) ==> h.live(c) && rank[c as int] < rank[q as int],
        h.term(q) == h.graph.read(n),
    ensures
        m.contracts(k, h.overwrite(q, n), r),
        m.heap.leads_to(h.overwrite(q, n)),
        h.overwrite(q, n).room() == h.room(),
        h.overwrite(q, n).graph.ranked(rank),
        forall|j: u32| #[trigger]
            h.live(j) ==> h.overwrite(q, n).live(j) && h.overwrite(q, n).term(j) == h.term(j),
        forall|j: u32| h.live(j) && j != q ==> #[trigger] h.overwrite(q, n).at(j) == h.at(j),
{
    reveal(Machine::contracts);
    let h0 = m.heap;
    let l = m.spine.len() as int;
    let h1 = h.overwrite(q, n);
    let p = m.app(k);
    crate::term::lemma_par_refl(h.term(q));
    assert(h.live(q));
    crate::heap::lemma_overwrite(h, q, n, rank);
    assert forall|j: u32| #[trigger] h.live(j) implies h1.live(j) && h1.term(j) == h.term(j) by {
        assert(h1.live(j) == h.live(j));
    }
    assert(h1.at(r) == h.at(r));
    let rank0 = h0.graph.ranking();
    assert(h0.graph.ranked(rank0));
    lemma_spine_term(m, l - k);
    crate::graph::lemma_follow(h0.graph, q, rank0);
    assert forall|i: u32| #[trigger] h0.live(i) implies {
        &&& h1.live(i)
        &&& h0.term(i).par(h1.term(i))
        &&& h1.follow(i) == if h0.follow(i) == p { r } else { h0.follow(i) }
    } by {
        assert(h.live(i));
    }
    assert forall|j: int| 0 <= j < l - k implies h1.at(#[trigger] m.spine[j]) == h0.at(
        m.spine[j],
    ) by {
        lemma_spine_rank(m, rank0, j, l - k);
        lemma_spine_term(m, j);
        assert(h.live(m.spine[j]));
        assert(h.at(m.spine[j]) == h0.at(m.spine[j]));
    }
}

/// `(S f g) x`.
proof fn lemma_spread_s2(m: Machine)
    requires
        m.wf(),
        m.spine.len() >= 1,
        m.heap.tag(m.n) == S2,
    ensures
        m.spread_s2() is Ok <==> m.heap.room() >= 3,
        m.spread_s2() matches Ok(m1) ==> m.contracts(1, m1.heap, m1.n) && m.heap.leads_to(m1.heap)
            && m1.heap.room() == m.heap.room() - 3,
{
    let l = m.spine.len() as int;
    let h0 = m.heap;
    let rank0 = h0.graph.ranking();
    assert(h0.graph.ranked(rank0));
    let a = h0.at(m.n).a;
    let b = h0.at(m.n).b;
    assert(h0.live(a) && h0.live(b));
    lemma_chase2(h0, a, b);
    lemma_spine_term(m, l - 1);
    lemma_spine_rank(m, rank0, l - 1, l - 1);
    assert(h0.chase(a).at(m.n) == h0.at(m.n)) by {
        crate::heap::lemma_chase(h0, a);
    }
    let _ = lemma_spread_at(m, 1, h0.chase(a).chase(b), h0.follow(a), h0.follow(b));
}

/// `(S f) g x`.
#[verifier::spinoff_prover]
proof fn lemma_spread_s1(m: Machine)
    requires
        m.wf(),
        m.spine.len() >= 2,
        m.heap.tag(m.n) == S1,
    ensures
        m.spread_s1() is Ok <==> m.heap.room() >= 3,
        m.spread_s1() matches Ok(m1) ==> m.contracts(2, m1.heap, m1.n) && m.heap.leads_to(m1.heap)
            && m1.heap.room() == m.heap.room() - 3,
{
    let l = m.spine.len() as int;
    let h0 = m.heap;
    let rank0 = h0.graph.ranking();
    assert(h0.graph.ranked(rank0));
    let q = m.app(1);
    let p = m.app(2);
    lemma_spine_term(m, l - 1);
    lemma_spine_term(m, l - 2);
    lemma_spine_rank(m, rank0, l - 2, l - 1);
    let a = h0.at(m.n).a;
    let b = h0.at(q).b;
    assert(h0.live(a) && h0.live(b));
    lemma_chase2(h0, a, b);
    assert(h0.chase(a).at(q) == h0.at(q)) by {
        crate::heap::lemma_chase(h0, a);
    }
    let f = h0.follow(a);
    let g = h0.follow(b);
    let h2 = h0.chase(a).chase(b);
    assert(h0.term(m.n) == Term::app(Term::Atom(S), h0.term(a)));
    assert(h0.term(q) == Term::app2(Term::Atom(S), h0.term(f), h0.term(g)));
    let rank1 = lemma_spread_at(m, 2, h2, f, g);
    if let Ok((h3, r)) = h2.spread(f, g, h2.at(p).b) {
        let h4 = h3.redirect(p, r);
        let n = Node { tag: S2, a: f, b: g };
        assert(h4.live(f) && h4.live(g) && h4.live(q));
        assert(h4.at(q) == h0.at(q));
        assert(h4.term(q) == h0.term(q));
        assert(h4.term(f) == h0.term(f));
        assert(h4.term(g) == h0.term(g));
        assert(h4.term(q) == h4.graph.read(n));
        assert(rank1[f as int] < rank1[q as int]);
        assert(rank1[g as int] < rank1[q as int]);
        lemma_record(m, 2, h4, r, q, n, rank1);
    }
}

/// `S f g x`.
proof fn lemma_spread_s(m: Machine)
    requires
        m.wf(),
        m.spine.len() >= 3,
        m.heap.tag(m.n) == S,
    ensures
        m.spread_s() is Ok <==> m.heap.room() >= 3,
        m.spread_s() matches Ok(m1) ==> m.contracts(3, m1.heap, m1.n) && m.heap.leads_to(m1.heap)
            && m1.heap.room() == m.heap.room() - 3,
{
    let l = m.spine.len() as int;
    let h0 = m.heap;
    let rank0 = h0.graph.ranking();
    assert(h0.graph.ranked(rank0));
    let t = m.app(1);
    let q = m.app(2);
    let p = m.app(3);
    lemma_spine_term(m, l - 1);
    lemma_spine_term(m, l - 2);
    lemma_spine_term(m, l - 3);
    lemma_spine_rank(m, rank0, l - 2, l - 1);
    lemma_spine_rank(m, rank0, l - 3, l - 1);
    lemma_spine_rank(m, rank0, l - 3, l - 2);
    let a = h0.at(t).b;
    let b = h0.at(q).b;
    assert(h0.live(a) && h0.live(b));
    lemma_chase2(h0, a, b);
    assert(h0.chase(a).at(q) == h0.at(q)) by {
        crate::heap::lemma_chase(h0, a);
    }
    let f = h0.follow(a);
    let g = h0.follow(b);
    let h2 = h0.chase(a).chase(b);
    let rank1 = lemma_spread_at(m, 3, h2, f, g);
    if let Ok((h3, r)) = h2.spread(f, g, h2.at(p).b) {
        let h4 = h3.redirect(p, r);
        assert(h4.live(f) && h4.live(g) && h4.live(q) && h4.live(t) && h4.live(a));
        assert(h4.at(t) == h0.at(t));
        assert(h4.at(q) == h0.at(q));
        let n1 = Node { tag: S1, a: f, b: h4.at(t).b };
        assert(h4.term(t) == h4.graph.read(n1));
        lemma_record(m, 3, h4, r, t, n1, rank1);
        let h5 = h4.overwrite(t, n1);
        let n2 = Node { tag: S2, a: f, b: g };
        assert(h5.at(q) == h4.at(q));
        assert(h5.term(q) == h5.graph.read(n2));
        lemma_record(m, 3, h5, r, q, n2, rank1);
    }
}

impl Machine {
    /// How many arguments the combinator at the inner end takes.
    pub open spec fn width(self) -> int {
        let tag = self.heap.tag(self.n);
        if tag == S {
            3
        } else if tag == K || tag == S1 {
            2
        } else {
            1
        }
    }
}

/// A contraction replaces the redex at the inner end; only a lack of room
/// stops it.
pub proof fn lemma_contracts(m: Machine)
    requires
        m.wf(),
    ensures
        m.heap.room() >= 3 ==> m.contract() is Ok,
        m.contract() matches Ok(Some(m1)) ==> {
            &&& m.contracts(m.width(), m1.heap, m1.n)
            &&& m1 == m.resume(m.width(), m1.heap, m1.n)
            &&& m.heap.leads_to(m1.heap)
            &&& m1.heap.room() + 3 >= m.heap.room()
        },
{
    let l = m.spine.len() as int;
    let tag = m.heap.tag(m.n);
    let rank = m.heap.graph.ranking();
    assert(m.heap.graph.ranked(rank));
    if tag == I && l >= 1 {
        lemma_spine_term(m, l - 1);
        let src = m.heap.at(m.app(1)).b;
        crate::term::lemma_par_refl(m.heap.term(src));
        lemma_project(m, src);
    } else if tag == K && l >= 2 {
        lemma_project_k(m);
    } else if tag == K1 && l >= 1 {
        lemma_spine_term(m, l - 1);
        lemma_spine_rank(m, rank, l - 1, l - 1);
        let src = m.heap.at(m.n).a;
        assert(m.heap.live(src));
        crate::term::lemma_par_refl(m.heap.term(src));
        lemma_project(m, src);
    } else if tag == S && l >= 3 {
        lemma_spread_s(m);
    } else if tag == S1 && l >= 2 {
        lemma_spread_s1(m);
    } else if tag == S2 && l >= 1 {
        lemma_spread_s2(m);
    }
}

/// Contraction keeps the machine well formed and is the leftmost reduction of
/// the outermost expression; there is none exactly in weak head normal form;
/// it takes room for three nodes at most, and only a lack of room stops it.
pub proof fn lemma_contract(m: Machine)
    requires
        m.wf(),
        m.heap.tag(m.n) != APP,
    ensures
        m.heap.room() >= 3 ==> m.contract() is Ok,
        m.contract() == Ok::<Option<Machine>, AllocError>(None) <==> m.heap.term(m.outer()).step()
            is None,
        m.contract() matches Ok(Some(m1)) ==> {
            &&& m1.wf()
            &&& m.heap.leads_to(m1.heap)
            &&& m.heap.term(m.outer()).step() is Some
            &&& m.heap.term(m.outer()).step()->0.par(m1.heap.term(m1.outer()))
            &&& m1.heap.room() + 3 >= m.heap.room()
            &&& forall|i: u32| #[trigger]
                m.heap.live(i) && m.heap.follow(i) == m.outer() ==> m1.heap.follow(i) == m1.outer()
        },
{
    lemma_contracts(m);
    if let Ok(Some(m1)) = m.contract() {
        lemma_resume(m, m.width(), m1.heap, m1.n);
    }
    lemma_outer_head(m, 0);
    crate::term::lemma_normal(m.heap.term(m.outer()));
    reveal_with_fuel(Term::head, 3);
    reveal_with_fuel(Term::arity, 3);
}

/// The head and the arguments of the expression at a place of the spine.
proof fn lemma_outer_head(m: Machine, j: int)
    requires
        m.wf(),
        0 <= j <= m.spine.len(),
    ensures
        ({
            let t = m.heap.term(if j < m.spine.len() { m.spine[j] } else { m.n });
            &&& t.head() == m.heap.term(m.n).head()
            &&& t.arity() == m.heap.term(m.n).arity() + m.spine.len() - j
        }),
    decreases m.spine.len() - j,
{
    if j < m.spine.len() {
        lemma_spine_term(m, j);
        lemma_outer_head(m, j + 1);
    }
}

/// Going all the way down changes no expression.
pub proof fn lemma_unwind(m: Machine)
    requires
        m.wf(),
    ensures
        m.unwind().wf(),
        m.unwind().heap.tag(m.unwind().n) != APP,
        m.heap.leads_to(m.unwind().heap),
        m.unwind().outer() == m.outer(),
        m.unwind().heap.room() == m.heap.room(),
        forall|i: u32| #[trigger]
            m.heap.live(i) ==> m.unwind().heap.live(i) && m.unwind().heap.term(i) == m.heap.term(i)
                && m.unwind().heap.follow(i) == m.heap.follow(i),
    decreases m.heap.term(m.n),
{
    if m.heap.tag(m.n) == APP {
        let d = m.descend();
        lemma_descend(m);
        crate::heap::lemma_chase(m.heap, m.heap.at(m.n).a);
        lemma_unwind(d);
        assert forall|i: u32| #[trigger] m.heap.live(i) implies m.unwind().heap.live(i)
            && m.unwind().heap.term(i) == m.heap.term(i) && m.unwind().heap.follow(i)
            == m.heap.follow(i) by {
            assert(d.heap.live(i));
        }
    } else {
        crate::heap::lemma_leads_refl(m.heap);
    }
}

/// The outermost node of a well-formed machine.
pub proof fn lemma_outer(m: Machine)
    requires
        m.wf(),
    ensures
        m.heap.live(m.outer()),
        m.heap.tag(m.outer()) != IND,
        m.heap.follow(m.outer()) == m.outer(),
{
    if m.spine.len() > 0 {
        assert(m.linked(0));
    }
}

/// A run reduces expressions, and ends early only in weak head normal form;
/// what stood for the outermost expression then leads to the result.
pub proof fn lemma_run(m: Machine, fuel: nat)
    requires
        m.wf(),
    ensures
        m.run(fuel) matches Ok((h, (r, f))) ==> {
            &&& m.heap.leads_to(h)
            &&& h.live(r)
            &&& h.tag(r) != IND
            &&& f <= fuel
            &&& f > 0 ==> h.term(r).step() is None
            &&& f > 0 ==> forall|i: u32| #[trigger]
                m.heap.live(i) && m.heap.follow(i) == m.outer() ==> h.follow(i) == r
        },
    decreases fuel,
{
    if fuel == 0 {
        crate::heap::lemma_leads_refl(m.heap);
    } else {
        let u = m.unwind();
        lemma_unwind(m);
        lemma_contract(u);
        lemma_outer(u);
        if let Ok(Some(m1)) = u.contract() {
            lemma_run(m1, (fuel - 1) as nat);
            if let Ok((h, (r, f))) = m1.run((fuel - 1) as nat) {
                assert forall|i: u32| f > 0 && #[trigger] m.heap.live(i) && m.heap.follow(i)
                    == m.outer() implies h.follow(i) == r by {
                    assert(u.heap.live(i));
                    assert(m1.heap.live(i));
                }
            }
        }
    }
}

/// A run with enough fuel and room reaches the weak head normal form of the
/// outermost expression.
pub proof fn lemma_run_reaches(m: Machine, fuel: nat, k: nat, w: Term)
    requires
        m.wf(),
        m.heap.term(m.outer()).reaches(k, w),
        fuel > k,
        m.heap.room() >= 3 * k,
    ensures
        m.run(fuel) matches Ok((h, (r, f))) && f + k >= fuel && h.room() + 3 * k >= m.heap.room()
            && w.reduces(h.term(r)),
    decreases k,
{
    let u = m.unwind();
    lemma_unwind(m);
    lemma_contract(u);
    lemma_outer(m);
    if k == 0 {
        crate::term::lemma_reduces_refl(w);
    } else {
        assert(u.heap.term(u.outer()) == m.heap.term(m.outer()));
        let m1 = u.contract()->Ok_0->0;
        let t = m.heap.term(m.outer()).step()->0;
        let (k1, w1) = crate::term::lemma_par_reaches(
            t,
            m1.heap.term(m1.outer()),
            (k - 1) as nat,
            w,
        );
        lemma_run_reaches(m1, (fuel - 1) as nat, k1, w1);
        let (h, (r, f)) = m1.run((fuel - 1) as nat)->Ok_0;
        crate::term::lemma_par_reduces(w, w1);
        crate::term::lemma_reduces_trans(w, w1, h.term(r));
    }
}

/// The machine at a node is well formed.
pub proof fn lemma_start(h: Heap, node: u32)
    requires
        h.wf(),
        h.live(node),
    ensures
        Machine::start(h, node).wf(),
        h.leads_to(h.chase(node)),
        Machine::start(h, node).outer() == h.follow(node),
        h.chase(node).term(h.follow(node)) == h.term(node),
        h.chase(node).room() == h.room(),
{
    crate::heap::lemma_chase(h, node);
    crate::graph::lemma_follow(h.graph, node, h.graph.ranking());
    assert(h.chase(node).live(h.follow(node)));
    assert(h.live(h.follow(node)));
}

/// Evaluation is sound: every node still stands for what it stood for, up to
/// reduction. If fuel is left, the node has become an indirection to the
/// result, and the result is in weak head normal form.
pub proof fn lemma_whnf(h: Heap, node: u32, fuel: nat)
    requires
        h.wf(),
        h.live(node),
    ensures
        h.whnf(node, fuel) matches Ok((h1, (r, f))) ==> {
            &&& h.leads_to(h1)
            &&& h1.live(r)
            &&& h1.tag(r) != IND
            &&& f <= fuel
            &&& f > 0 ==> h1.follow(node) == r && h1.term(node) == h1.term(r) && h.term(
                node,
            ).reduces(h1.term(r)) && h1.term(r).step() is None
        },
{
    reveal(Heap::whnf);
    lemma_start(h, node);
    let m = Machine::start(h, node);
    lemma_run(m, fuel);
    if let Ok((h1, (r, f))) = h.whnf(node, fuel) {
        if f > 0 {
            crate::heap::lemma_chase(h, node);
            assert(m.heap.live(node));
            assert(m.heap.follow(node) == m.outer());
            assert(h.live(node));
            assert(h1.live(node));
            crate::graph::lemma_follow(h1.graph, node, h1.graph.ranking());
            crate::heap::lemma_leads_node(h, h1, node);
        }
    }
}

/// Evaluation that takes no fuel changes no expression.
pub proof fn lemma_whnf_idle(h: Heap, node: u32, fuel: nat)
    requires
        h.wf(),
        h.live(node),
        fuel > 0,
    ensures
        h.whnf(node, fuel) matches Ok((h1, (r, f))) ==> (f == fuel ==> forall|i: u32| #[trigger]
            h.live(i) ==> h1.live(i) && h1.term(i) == h.term(i)),
{
    reveal(Heap::whnf);
    lemma_start(h, node);
    crate::heap::lemma_chase(h, node);
    let m = Machine::start(h, node);
    let u = m.unwind();
    lemma_unwind(m);
    lemma_contract(u);
    if let Ok(Some(m1)) = u.contract() {
        lemma_run(m1, (fuel - 1) as nat);
    }
    assert forall|i: u32| #[trigger] h.live(i) implies u.heap.live(i) && u.heap.term(i) == h.term(
        i,
    ) by {
        assert(m.heap.live(i));
    }
}

/// Evaluation is complete: an expression with a weak head normal form that is
/// `k` leftmost reductions away is evaluated with `k` units of fuel and `3 k`
/// nodes.
pub proof fn lemma_whnf_reaches(h: Heap, node: u32, fuel: nat, k: nat, w: Term)
    requires
        h.wf(),
        h.live(node),
        h.term(node).reaches(k, w),
        fuel > k,
        h.room() >= 3 * k,
    ensures
        h.whnf(node, fuel) matches Ok((h1, (r, f))) && f + k >= fuel && h1.room() + 3 * k
            >= h.room() && w.reduces(h1.term(r)),
{
    reveal(Heap::whnf);
    lemma_start(h, node);
    lemma_run_reaches(Machine::start(h, node), fuel, k, w);
}

pub proof fn lemma_run_more(m: Machine, fuel: nat, extra: nat)
    requires
        m.wf(),
    ensures
        m.run(fuel) matches Ok((h, (r, f))) ==> (f > 0 ==> m.run(fuel + extra) == Ok::<
            (Heap, (u32, nat)),
            AllocError,
        >((h, (r, f + extra)))),
    decreases fuel,
{
    if fuel > 0 {
        let u = m.unwind();
        lemma_unwind(m);
        lemma_contract(u);
        if let Ok(Some(m1)) = u.contract() {
            lemma_run_more(m1, (fuel - 1) as nat, extra);
            assert((fuel - 1) as nat + extra == (fuel + extra - 1) as nat);
        }
    }
}

/// Fuel does no more than limit the evaluation: with more of it than was
/// needed the result is the same, and the rest is left.
pub proof fn lemma_whnf_more_fuel(h: Heap, node: u32, fuel: nat, extra: nat)
    requires
        h.wf(),
        h.live(node),
    ensures
        h.whnf(node, fuel) matches Ok((h1, (r, f))) ==> (f > 0 ==> h.whnf(node, fuel + extra)
            == Ok::<(Heap, (u32, nat)), AllocError>((h1, (r, f + extra)))),
{
    reveal(Heap::whnf);
    lemma_start(h, node);
    lemma_run_more(Machine::start(h, node), fuel, extra);
}

/// Work on a shared node is done once: evaluating it again takes no fuel, no
/// node, and gives the same result.
pub proof fn lemma_whnf_again(h: Heap, node: u32, fuel: nat, fuel2: nat)
    requires
        h.wf(),
        h.live(node),
        fuel2 > 0,
    ensures
        h.whnf(node, fuel) matches Ok((h1, (r, f))) ==> (f > 0 ==> (h1.whnf(node, fuel2) matches Ok(
            (h2, (r2, f2)),
        ) && r2 == r && f2 == fuel2 && h2.room() == h1.room() && forall|i: u32| #[trigger]
            h1.live(i) ==> h2.live(i) && h2.term(i) == h1.term(i))),
{
    reveal(Heap::whnf);
    if let Ok((h1, (r, f))) = h.whnf(node, fuel) {
        if f > 0 {
            lemma_whnf(h, node, fuel);
            assert(h.graph.live(node));
            assert(h1.live(node));
            let m = Machine::start(h1, node);
            lemma_start(h1, node);
            crate::heap::lemma_chase(h1, node);
            lemma_unwind(m);
            lemma_outer(m);
            lemma_contract(m.unwind());
            assert forall|i: u32| #[trigger] h1.live(i) implies m.unwind().heap.live(i)
                && m.unwind().heap.term(i) == h1.term(i) by {
                assert(m.heap.live(i));
            }
        }
    }
}

} // verus!
