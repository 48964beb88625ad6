//! Shared nodes: combinators and selectors that are allocated once.

use vstd::prelude::*;
use crate::heap::{AllocError, Cached, Heap, Outcome};
use crate::node::{I, K, K1, MARKER_F, MARKER_T, NIL, Node, S2};
use crate::term::Term;

verus! {

broadcast use crate::heap::group_leads;

impl Heap {
    /// Shares the node `i` from now on, unless a checkpoint is set.
    pub open spec fn share(self, cached: Cached, i: u32) -> Heap {
        if self.checkpoint is None {
            (Heap { cached, ..self }).keep(i)
        } else {
            self
        }
    }

    pub open spec fn intern_k(self) -> Outcome<u32> {
        match self.valid_cached(self.cached.k) {
            Some(i) => Ok((self, i)),
            None => match self.grow(Node::leaf(K)) {
                Err(e) => Err(e),
                Ok((h, i)) => Ok((h.share(Cached { k: Some(i), ..h.cached }, i), i)),
            },
        }
    }

    pub open spec fn intern_i(self) -> Outcome<u32> {
        match self.valid_cached(self.cached.i) {
            Some(i) => Ok((self, i)),
            None => match self.grow(Node::leaf(I)) {
                Err(e) => Err(e),
                Ok((h, i)) => Ok((h.share(Cached { i: Some(i), ..h.cached }, i), i)),
            },
        }
    }

    /// `K I`
    pub open spec fn intern_ki(self) -> Outcome<u32> {
        match self.valid_cached(self.cached.ki) {
            Some(i) => Ok((self, i)),
            None => match self.intern_i() {
                Err(e) => Err(e),
                Ok((h0, i_node)) => match h0.grow(Node { tag: K1, a: i_node, b: NIL }) {
                    Err(e) => Err(e),
                    Ok((h, i)) => Ok((h.share(Cached { ki: Some(i), ..h.cached }, i), i)),
                },
            },
        }
    }

    pub open spec fn intern_marker_t(self) -> Outcome<u32> {
        match self.valid_cached(self.cached.marker_t) {
            Some(i) => Ok((self, i)),
            None => match self.grow(Node::leaf(MARKER_T)) {
                Err(e) => Err(e),
                Ok((h, i)) => Ok((h.share(Cached { marker_t: Some(i), ..h.cached }, i), i)),
            },
        }
    }

    pub open spec fn intern_marker_f(self) -> Outcome<u32> {
        match self.valid_cached(self.cached.marker_f) {
            Some(i) => Ok((self, i)),
            None => match self.grow(Node::leaf(MARKER_F)) {
                Err(e) => Err(e),
                Ok((h, i)) => Ok((h.share(Cached { marker_f: Some(i), ..h.cached }, i), i)),
            },
        }
    }

    /// Puts `n` times `S (K K)` in front of a node, where `kk` is `K K`.
    pub open spec fn wrap_core(self, kk: u32, core: u32, n: nat) -> Outcome<u32>
        decreases n,
    {
        if n == 0 {
            Ok((self, core))
        } else {
            match self.grow(Node { tag: S2, a: kk, b: core }) {
                Err(e) => Err(e),
                Ok((h, i)) => h.wrap_core(kk, i, (n - 1) as nat),
            }
        }
    }

    /// Puts `n` times `K` in front of a node.
    pub open spec fn wrap_k(self, x: u32, n: nat) -> Outcome<u32>
        decreases n,
    {
        if n == 0 {
            Ok((self, x))
        } else {
            match self.grow(Node { tag: K1, a: x, b: NIL }) {
                Err(e) => Err(e),
                Ok((h, i)) => h.wrap_k(i, (n - 1) as nat),
            }
        }
    }

    /// Builds the selector of the field `pos`.
    pub open spec fn build_sel(self, pos: int) -> Outcome<u32> {
        match self.intern_i() {
            Err(e) => Err(e),
            Ok((h1, i_node)) => match h1.intern_k() {
                Err(e) => Err(e),
                Ok((h2, k_node)) => match h2.grow(Node { tag: K1, a: k_node, b: NIL }) {
                    Err(e) => Err(e),
                    Ok((h3, kk)) => match h3.wrap_core(kk, i_node, (4 - pos) as nat) {
                        Err(e) => Err(e),
                        Ok((h4, core)) => h4.wrap_k(core, pos as nat),
                    },
                },
            },
        }
    }

    pub open spec fn intern_diamond_sel(self, pos: int) -> Outcome<u32> {
        match self.valid_cached(self.cached.sels[pos]) {
            Some(i) => Ok((self, i)),
            None => match self.build_sel(pos) {
                Err(e) => Err(e),
                Ok((h, i)) => Ok(
                    (
                        h.share(
                            Cached { sels: h.cached.sels.update(pos, Some(i)), ..h.cached },
                            i,
                        ),
                        i,
                    ),
                ),
            },
        }
    }
}

impl Term {
    /// `S (K K) (... (S (K K) I))` with `n` times `S (K K)`: takes `n + 1`
    /// arguments and gives the first.
    pub open spec fn first(n: nat) -> Term
        decreases n,
    {
        if n == 0 {
            Term::Atom(I)
        } else {
            Term::app2(
                Term::Atom(crate::node::S),
                Term::app(Term::Atom(K), Term::Atom(K)),
                Term::first((n - 1) as nat),
            )
        }
    }

    /// `K (... (K t))` with `n` times `K`.
    pub open spec fn skip(n: nat, t: Term) -> Term
        decreases n,
    {
        if n == 0 {
            t
        } else {
            Term::app(Term::Atom(K), Term::skip((n - 1) as nat, t))
        }
    }

    /// The selector of the field `pos` of a five-tuple.
    pub open spec fn sel(pos: int) -> Term {
        Term::skip(pos as nat, Term::first((4 - pos) as nat))
    }
}

/// Sharing a node changes nothing else.
proof fn lemma_share(h: Heap, cached: Cached, i: u32)
    requires
        h.wf(),
        h.live(i),
        (Heap { cached, ..h }).keep(i).cached_wf(),
        h.cached.stays(cached),
    ensures
        h.builds(h.share(cached, i), 0),
        h.checkpoint is None ==> h.share(cached, i).cached == cached,
{
    reveal(Heap::leads_to);
    crate::heap::lemma_keep(h, i);
    let h1 = h.share(cached, i);
    assert(h1.graph == h.graph);
    assert forall|j: u32| #[trigger] h.live(j) implies h1.live(j) && h1.at(j) == h.at(j) && h1.term(
        j,
    ) == h.term(j) && h1.follow(j) == h.follow(j) by {}
    assert(h.keep(i).roots == (Heap { cached, ..h }).keep(i).roots);
    assert(h.leads_to(h.keep(i)));
    crate::heap::lemma_leads_refl(h);
}

/// With one shared node more, the others are as valid as before.
proof fn lemma_pinned(h: Heap, cached: Cached, i: u32)
    requires
        h.wf(),
        h.live(i),
        cached.sels.len() == 5,
    ensures
        ({
            let h1 = (Heap { cached, ..h }).keep(i);
            &&& h1.graph == h.graph
            &&& h1.pinned(Some(i))
            &&& forall|c: Option<u32>| #[trigger] h.pinned(c) ==> h1.pinned(c)
        }),
{
    crate::heap::lemma_keep(h, i);
    let h1 = (Heap { cached, ..h }).keep(i);
    assert forall|c: Option<u32>| #[trigger] h.pinned(c) implies h1.pinned(c) by {
        if let Some(j) = c {
            let k = choose|k: int| 0 <= k < h.roots.len() && h.roots[k] == j;
            assert(h1.roots[k] == j);
        }
    }
}

/// The selectors stay valid where they are not replaced.
proof fn lemma_sels(h: Heap, cached: Cached, i: u32, pos: int)
    requires
        h.wf(),
        h.live(i),
        cached.sels == h.cached.sels || (0 <= pos < 5 && cached.sels == h.cached.sels.update(
            pos,
            Some(i),
        ) && h.graph.is_sel(i, pos)),
    ensures
        ({
            let h1 = (Heap { cached, ..h }).keep(i);
            forall|p: int|
                0 <= p < 5 ==> {
                    &&& h1.pinned(#[trigger] h1.cached.sels[p])
                    &&& h1.cached.sels[p] matches Some(s) ==> h1.graph.is_sel(s, p)
                }
        }),
{
    lemma_pinned(h, cached, i);
    let h1 = (Heap { cached, ..h }).keep(i);
    assert forall|p: int| 0 <= p < 5 implies h1.pinned(#[trigger] h1.cached.sels[p]) && (
    h1.cached.sels[p] matches Some(s) ==> h1.graph.is_sel(s, p)) by {
        assert(h.pinned(h.cached.sels[p]));
    }
}

impl Heap {
    /// The outcome `o` of interning: a node with the expression `t`, for at
    /// most `k` new nodes; there is none only for lack of room.
    pub open spec fn interns(self, o: Outcome<u32>, k: nat, t: Term) -> bool {
        &&& self.room() >= k ==> o is Ok
        &&& o matches Ok((h, i)) ==> self.builds(h, k) && h.live(i) && h.term(i) == t
    }
}

/// Interning `K` gives a node for `K`, and the same one from then on.
pub proof fn lemma_intern_k(h: Heap)
    requires
        h.wf(),
    ensures
        h.interns(h.intern_k(), 1, Term::Atom(K)),
        h.intern_k() matches Ok((h1, i)) ==> h1.tag(i) == K && (h.checkpoint is None
            ==> h1.cached.k == Some(i) && h1.intern_k() == Ok::<(Heap, u32), AllocError>((h1, i))),
{
    match h.valid_cached(h.cached.k) {
        Some(_) => crate::heap::lemma_builds_refl(h),
        None => {
            crate::heap::lemma_alloc(h, Node::leaf(K));
            if let Ok((h1, i)) = h.grow(Node::leaf(K)) {
                let cached = Cached { k: Some(i), ..h1.cached };
                lemma_pinned(h1, cached, i);
                lemma_sels(h1, cached, i, 0);
                lemma_share(h1, cached, i);
                crate::heap::lemma_builds_trans(h, h1, h1.share(cached, i), 1, 0);
            }
        },
    }
}

/// Interning `I` gives a node for `I`, and the same one from then on.
pub proof fn lemma_intern_i(h: Heap)
    requires
        h.wf(),
    ensures
        h.interns(h.intern_i(), 1, Term::Atom(I)),
        h.intern_i() matches Ok((h1, i)) ==> h1.tag(i) == I && (h.checkpoint is None
            ==> h1.cached.i == Some(i) && h1.intern_i() == Ok::<(Heap, u32), AllocError>((h1, i))),
{
    match h.valid_cached(h.cached.i) {
        Some(_) => crate::heap::lemma_builds_refl(h),
        None => {
            crate::heap::lemma_alloc(h, Node::leaf(I));
            if let Ok((h1, i)) = h.grow(Node::leaf(I)) {
                let cached = Cached { i: Some(i), ..h1.cached };
                lemma_pinned(h1, cached, i);
                lemma_sels(h1, cached, i, 0);
                lemma_share(h1, cached, i);
                crate::heap::lemma_builds_trans(h, h1, h1.share(cached, i), 1, 0);
            }
        },
    }
}

/// Interning `K I` gives a node for it, and the same one from then on.
pub proof fn lemma_intern_ki(h: Heap)
    requires
        h.wf(),
    ensures
        h.interns(h.intern_ki(), 2, Term::app(Term::Atom(K), Term::Atom(I))),
        h.intern_ki() matches Ok((h1, i)) ==> h1.tag(i) == K1 && h1.tag(h1.at(i).a) == I && (
        h.checkpoint is None ==> h1.intern_ki() == Ok::<(Heap, u32), AllocError>((h1, i))),
{
    match h.valid_cached(h.cached.ki) {
        Some(i) => {
            crate::heap::lemma_builds_refl(h);
            assert(h.graph.live(i));
            assert(h.graph.live(h.graph.at(i).a));
            assert(h.graph.term(h.graph.at(i).a) == Term::Atom(I));
        },
        None => {
            lemma_intern_i(h);
            if let Ok((h0, i_node)) = h.intern_i() {
                let n = Node { tag: K1, a: i_node, b: NIL };
                crate::heap::lemma_alloc(h0, n);
                if let Ok((h1, i)) = h0.grow(n) {
                    assert(h0.live(i_node));
                    let cached = Cached { ki: Some(i), ..h1.cached };
                    lemma_pinned(h1, cached, i);
                    lemma_sels(h1, cached, i, 0);
                    lemma_share(h1, cached, i);
                    crate::heap::lemma_builds_trans(h, h0, h1, 1, 1);
                    crate::heap::lemma_builds_trans(h, h1, h1.share(cached, i), 2, 0);
                }
            }
        },
    }
}

/// Interning the first marker gives a node for it, and the same one from then
/// on.
pub proof fn lemma_intern_marker_t(h: Heap)
    requires
        h.wf(),
    ensures
        h.interns(h.intern_marker_t(), 1, Term::Atom(MARKER_T)),
        h.intern_marker_t() matches Ok((h1, i)) ==> h1.tag(i) == MARKER_T && (h.checkpoint is None
            ==> h1.intern_marker_t() == Ok::<(Heap, u32), AllocError>((h1, i))),
{
    match h.valid_cached(h.cached.marker_t) {
        Some(_) => crate::heap::lemma_builds_refl(h),
        None => {
            crate::heap::lemma_alloc(h, Node::leaf(MARKER_T));
            if let Ok((h1, i)) = h.grow(Node::leaf(MARKER_T)) {
                let cached = Cached { marker_t: Some(i), ..h1.cached };
                lemma_pinned(h1, cached, i);
                lemma_sels(h1, cached, i, 0);
                lemma_share(h1, cached, i);
                crate::heap::lemma_builds_trans(h, h1, h1.share(cached, i), 1, 0);
            }
        },
    }
}

/// Interning the second marker gives a node for it, and the same one from
/// then on.
pub proof fn lemma_intern_marker_f(h: Heap)
    requires
        h.wf(),
    ensures
        h.interns(h.intern_marker_f(), 1, Term::Atom(MARKER_F)),
        h.intern_marker_f() matches Ok((h1, i)) ==> h1.tag(i) == MARKER_F && (h.checkpoint is None
            ==> h1.intern_marker_f() == Ok::<(Heap, u32), AllocError>((h1, i))),
{
    match h.valid_cached(h.cached.marker_f) {
        Some(_) => crate::heap::lemma_builds_refl(h),
        None => {
            crate::heap::lemma_alloc(h, Node::leaf(MARKER_F));
            if let Ok((h1, i)) = h.grow(Node::leaf(MARKER_F)) {
                let cached = Cached { marker_f: Some(i), ..h1.cached };
                lemma_pinned(h1, cached, i);
                lemma_sels(h1, cached, i, 0);
                lemma_share(h1, cached, i);
                crate::heap::lemma_builds_trans(h, h1, h1.share(cached, i), 1, 0);
            }
        },
    }
}

/// A selector node stands for the selector.
pub proof fn lemma_core_term(h: Heap, i: u32, n: nat)
    requires
        h.wf(),
        h.live(i),
        h.graph.is_core(i, n),
    ensures
        h.term(i) == Term::first(n),
    decreases n,
{
    if n > 0 {
        assert(h.graph.live(i));
        assert(h.graph.live(h.graph.at(i).a));
        let kk = h.graph.at(i).a;
        assert(h.graph.live(h.graph.at(kk).a));
        assert(h.graph.term(h.graph.at(kk).a) == Term::Atom(K));
        assert(h.graph.term(kk) == Term::app(Term::Atom(K), Term::Atom(K)));
        lemma_core_term(h, h.at(i).b, (n - 1) as nat);
    }
}

proof fn lemma_wrapped_term(h: Heap, i: u32, n: nat, m: nat)
    requires
        h.wf(),
        h.live(i),
        h.graph.is_wrapped_core(i, n, m),
    ensures
        h.term(i) == Term::skip(n, Term::first(m)),
    decreases n,
{
    if n > 0 {
        assert(h.graph.live(i));
        lemma_wrapped_term(h, h.at(i).a, (n - 1) as nat, m);
    } else {
        lemma_core_term(h, i, m);
    }
}

pub proof fn lemma_wrap_core(h: Heap, kk: u32, c: u32, n: nat, m: nat)
    requires
        h.wf(),
        h.live(kk),
        h.tag(kk) == K1,
        h.tag(h.at(kk).a) == K,
        h.live(c),
        h.graph.is_core(c, m),
    ensures
        h.room() >= n ==> h.wrap_core(kk, c, n) is Ok,
        h.wrap_core(kk, c, n) matches Ok((h1, i)) ==> h.builds(h1, n) && h1.live(i)
            && h1.graph.is_core(i, m + n) && h1.cached == h.cached,
    decreases n,
{
    if n == 0 {
        crate::heap::lemma_builds_refl(h);
    } else {
        let node = Node { tag: S2, a: kk, b: c };
        crate::heap::lemma_alloc(h, node);
        if let Ok((h1, i)) = h.grow(node) {
            assert(h.graph.live(h.graph.at(kk).a));
            assert(h.live(h.at(kk).a) && h.live(kk));
            crate::heap::lemma_keeps_core(h.graph, h1.graph, c, m);
            assert(h1.graph.is_core(i, m + 1));
            lemma_wrap_core(h1, kk, i, (n - 1) as nat, m + 1);
            if let Ok((h2, r)) = h1.wrap_core(kk, i, (n - 1) as nat) {
                crate::heap::lemma_builds_trans(h, h1, h2, 1, (n - 1) as nat);
            }
        }
    }
}

pub proof fn lemma_wrap_k(h: Heap, x: u32, n: nat, k: nat, m: nat)
    requires
        h.wf(),
        h.live(x),
        h.graph.is_wrapped_core(x, k, m),
    ensures
        h.room() >= n ==> h.wrap_k(x, n) is Ok,
        h.wrap_k(x, n) matches Ok((h1, i)) ==> h.builds(h1, n) && h1.live(i)
            && h1.graph.is_wrapped_core(i, k + n, m) && h1.cached == h.cached,
    decreases n,
{
    if n == 0 {
        crate::heap::lemma_builds_refl(h);
    } else {
        let node = Node { tag: K1, a: x, b: NIL };
        crate::heap::lemma_alloc(h, node);
        if let Ok((h1, i)) = h.grow(node) {
            crate::heap::lemma_keeps_wrapped(h.graph, h1.graph, x, k, m);
            assert(h1.graph.is_wrapped_core(i, k + 1, m));
            lemma_wrap_k(h1, i, (n - 1) as nat, k + 1, m);
            if let Ok((h2, r)) = h1.wrap_k(i, (n - 1) as nat) {
                crate::heap::lemma_builds_trans(h, h1, h2, 1, (n - 1) as nat);
            }
        }
    }
}

/// Building a selector takes seven nodes at most.
pub proof fn lemma_build_sel(h: Heap, pos: int)
    requires
        h.wf(),
        0 <= pos < 5,
    ensures
        h.room() >= 7 ==> h.build_sel(pos) is Ok,
        h.build_sel(pos) matches Ok((h1, i)) ==> h.builds(h1, 7) && h1.live(i) && h1.graph.is_sel(
            i,
            pos,
        ) && h1.cached.sels == h.cached.sels,
{
    lemma_intern_i(h);
    if let Ok((h1, i_node)) = h.intern_i() {
        lemma_intern_k(h1);
        if let Ok((h2, k_node)) = h1.intern_k() {
            assert(h1.live(i_node));
            let node = Node { tag: K1, a: k_node, b: NIL };
            crate::heap::lemma_alloc(h2, node);
            if let Ok((h3, kk)) = h2.grow(node) {
                assert(h2.live(k_node) && h2.live(i_node));
                assert(h3.graph.is_core(i_node, 0));
                let m = (4 - pos) as nat;
                lemma_wrap_core(h3, kk, i_node, m, 0);
                crate::heap::lemma_builds_trans(h, h1, h2, 1, 1);
                crate::heap::lemma_builds_trans(h, h2, h3, 2, 1);
                if let Ok((h4, c)) = h3.wrap_core(kk, i_node, m) {
                    crate::heap::lemma_builds_trans(h, h3, h4, 3, m);
                    lemma_wrap_k(h4, c, pos as nat, 0, m);
                    if let Ok((h5, r)) = h4.wrap_k(c, pos as nat) {
                        crate::heap::lemma_builds_trans(h, h4, h5, 3 + m, pos as nat);
                    }
                }
            }
        }
    }
}

/// Interning a selector gives a node for it, and the same one from then on.
pub proof fn lemma_intern_diamond_sel(h: Heap, pos: int)
    requires
        h.wf(),
        0 <= pos < 5,
    ensures
        h.interns(h.intern_diamond_sel(pos), 7, Term::sel(pos)),
        h.intern_diamond_sel(pos) matches Ok((h1, i)) ==> h1.graph.is_sel(i, pos) && (h.checkpoint
            is None ==> h1.cached.sels[pos] == Some(i) && h1.intern_diamond_sel(pos) == Ok::<
            (Heap, u32),
            AllocError,
        >((h1, i))),
{
    match h.valid_cached(h.cached.sels[pos]) {
        Some(i) => {
            assert(h.pinned(h.cached.sels[pos]));
            crate::heap::lemma_builds_refl(h);
            lemma_wrapped_term(h, i, pos as nat, (4 - pos) as nat);
        },
        None => {
            lemma_build_sel(h, pos);
            assert(h.pinned(h.cached.sels[pos]));
            if let Ok((h1, i)) = h.build_sel(pos) {
                let cached = Cached { sels: h1.cached.sels.update(pos, Some(i)), ..h1.cached };
                lemma_pinned(h1, cached, i);
                lemma_sels(h1, cached, i, pos);
                lemma_share(h1, cached, i);
                lemma_wrapped_term(h1, i, pos as nat, (4 - pos) as nat);
                crate::heap::lemma_builds_trans(h, h1, h1.share(cached, i), 7, 0);
            }
        },
    }
}

/// A selector that was asked for is shared from then on.
pub proof fn lemma_sel_kept(h: Heap, pos: int)
    requires
        h.wf(),
        h.checkpoint is None,
        0 <= pos < 5,
    ensures
        h.intern_diamond_sel(pos) matches Ok((h1, i)) ==> h1.shares_sel(pos, i),
{
    lemma_intern_diamond_sel(h, pos);
    if let Ok((h1, i)) = h.intern_diamond_sel(pos) {
        assert(h1.wf());
        assert(h1.pinned(h1.cached.sels[pos]));
    }
}

/// `first(n)` applied to `n + 1` arguments gives the first of them, after
/// `3 n + 1` leftmost reductions.
pub proof fn lemma_first(n: nat, args: Seq<Term>)
    requires
        args.len() == n + 1,
    ensures
        Term::apply(Term::first(n), args).steps(3 * n + 1, args[0]),
    decreases n,
{
    if n == 0 {
        assert(args.drop_last() =~= Seq::empty());
        reveal_with_fuel(Term::apply, 2);
        reveal_with_fuel(Term::steps, 2);
    } else {
        let x = args[0];
        let y = args[1];
        let kk = Term::app(Term::Atom(K), Term::Atom(K));
        let rest = args.skip(2);
        let c = Term::first((n - 1) as nat);
        let m0 = Term::app2(Term::first(n), x, y);
        let m1 = Term::app2(Term::app(kk, x), Term::app(c, x), y);
        let m2 = Term::app2(Term::Atom(K), Term::app(c, x), y);
        let m3 = Term::app(c, x);
        assert(m0.step() == Some(m1)) by {
            reveal_with_fuel(Term::step, 4);
        }
        assert(m1.step() == Some(m2)) by {
            reveal_with_fuel(Term::step, 4);
        }
        assert(m2.step() == Some(m3)) by {
            reveal_with_fuel(Term::step, 4);
        }
        lemma_apply_step(m0, rest);
        lemma_apply_step(m1, rest);
        lemma_apply_step(m2, rest);
        lemma_apply_cons(Term::first(n), args);
        lemma_apply_cons(Term::app(Term::first(n), x), args.skip(1));
        assert(args.skip(1).skip(1) =~= rest);
        let args1 = seq![x] + rest;
        lemma_apply_cons(c, args1);
        assert(args1.skip(1) =~= rest);
        lemma_first((n - 1) as nat, args1);
        let u = Term::apply(m3, rest);
        let k: nat = 3 * (n - 1) as nat + 1;
        assert(u.steps(k, x));
        assert(Term::apply(m2, rest).steps(k + 1, x));
        assert(Term::apply(m1, rest).steps(k + 2, x));
        assert(Term::apply(m0, rest).steps(k + 3, x));
    }
}

impl Term {
    /// A function applied to arguments, one after another.
    pub open spec fn apply(f: Term, args: Seq<Term>) -> Term
        decreases args.len(),
    {
        if args.len() == 0 {
            f
        } else {
            Term::app(Term::apply(f, args.drop_last()), args.last())
        }
    }
}

pub proof fn lemma_apply_cons(f: Term, args: Seq<Term>)
    requires
        args.len() > 0,
    ensures
        Term::apply(f, args) == Term::apply(Term::app(f, args[0]), args.skip(1)),
    decreases args.len(),
{
    if args.len() == 1 {
        assert(args.drop_last() =~= Seq::empty());
        assert(args.skip(1) =~= Seq::empty());
    } else {
        lemma_apply_cons(f, args.drop_last());
        assert(args.drop_last().skip(1) =~= args.skip(1).drop_last());
    }
}

/// A reduction of the function is a reduction of the application to
/// arguments.
pub proof fn lemma_apply_step(f: Term, args: Seq<Term>)
    requires
        f.step() is Some,
    ensures
        Term::apply(f, args).step() == Some(Term::apply(f.step()->0, args)),
    decreases args.len(),
{
    if args.len() > 0 {
        lemma_apply_step(f, args.drop_last());
        crate::term::lemma_step_app(Term::apply(f, args.drop_last()), args.last());
    }
}

/// The selector of a field, applied to the five fields, gives that field.
pub proof fn lemma_sel(pos: int, args: Seq<Term>)
    requires
        0 <= pos < 5,
        args.len() == 5,
    ensures
        Term::apply(Term::sel(pos), args).steps((13 - 2 * pos) as nat, args[pos]),
{
    lemma_skip(pos as nat, Term::first((4 - pos) as nat), args);
    lemma_first((4 - pos) as nat, args.skip(pos));
    crate::term::lemma_steps_trans(
        Term::apply(Term::sel(pos), args),
        Term::apply(Term::first((4 - pos) as nat), args.skip(pos)),
        args[pos],
        pos as nat,
        (3 * (4 - pos) + 1) as nat,
    );
}

proof fn lemma_skip(n: nat, t: Term, args: Seq<Term>)
    requires
        args.len() > n,
    ensures
        Term::apply(Term::skip(n, t), args).steps(n, Term::apply(t, args.skip(n as int))),
    decreases n,
{
    if n == 0 {
        assert(args.skip(0) =~= args);
    } else {
        let u = Term::skip((n - 1) as nat, t);
        let f = Term::app2(Term::Atom(K), u, args[0]);
        assert(f.step() == Some(u));
        lemma_apply_cons(Term::skip(n, t), args);
        lemma_apply_step(f, args.skip(1));
        lemma_skip((n - 1) as nat, t, args.skip(1));
        assert(args.skip(1).skip(n - 1) =~= args.skip(n as int));
    }
}

} // verus!
