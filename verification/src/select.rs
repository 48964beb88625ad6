//! Evaluation of a node in place, booleans, and the parts of pairs.

use vstd::prelude::*;
use crate::arena::Arena;
use crate::heap::{AllocError, Heap, Outcome};
use crate::node::{APP, I, IND, K, MARKER_F, MARKER_T, Node};
use crate::term::Term;

verus! {

broadcast use crate::heap::group_leads;

impl Heap {
    /// `f x`
    pub open spec fn apply(self, f: u32, x: u32) -> Outcome<u32> {
        self.grow(Node { tag: APP, a: f, b: x })
    }

    /// Evaluates a node, and gives the node that it leads to then and the fuel
    /// that is left.
    #[verifier::opaque]
    pub open spec fn eval(self, node: u32, fuel: nat) -> Outcome<(u32, nat)> {
        match self.whnf(node, fuel) {
            Err(e) => Err(e),
            Ok((h, (_, f))) => Ok((h, (h.follow(node), f))),
        }
    }

    /// Applies a node to the two markers.
    pub open spec fn apply_markers(self, node: u32) -> Outcome<u32> {
        match self.intern_marker_t() {
            Err(e) => Err(e),
            Ok((h1, t)) => match h1.intern_marker_f() {
                Err(e) => Err(e),
                Ok((h2, f)) => match h2.apply(node, t) {
                    Err(e) => Err(e),
                    Ok((h3, app1)) => h3.apply(app1, f),
                },
            },
        }
    }

    /// The boolean that a tag stands for.
    pub open spec fn marker_value(tag: u8) -> Option<bool> {
        if tag == MARKER_T {
            Some(true)
        } else if tag == MARKER_F {
            Some(false)
        } else {
            None
        }
    }

    /// Reads a boolean: which of two markers does it pick?
    #[verifier::opaque]
    pub open spec fn decode_bool(self, node: u32, fuel: nat) -> Outcome<Option<bool>> {
        match self.apply_markers(node) {
            Err(e) => Err(e),
            Ok((h1, app2)) => match h1.whnf(app2, fuel) {
                Err(e) => Err(e),
                Ok((h2, (r, _))) => Ok((h2, Heap::marker_value(h2.tag(h2.follow(r))))),
            },
        }
    }

    /// `node K I`
    pub open spec fn apply_fst(self, node: u32) -> Outcome<u32> {
        match self.intern_k() {
            Err(e) => Err(e),
            Ok((h1, k)) => match h1.apply(node, k) {
                Err(e) => Err(e),
                Ok((h2, app1)) => match h2.intern_i() {
                    Err(e) => Err(e),
                    Ok((h3, dummy)) => h3.apply(app1, dummy),
                },
            },
        }
    }

    /// `node (K I) I`
    pub open spec fn apply_snd(self, node: u32) -> Outcome<u32> {
        match self.intern_ki() {
            Err(e) => Err(e),
            Ok((h1, ki)) => match h1.apply(node, ki) {
                Err(e) => Err(e),
                Ok((h2, app1)) => match h2.intern_i() {
                    Err(e) => Err(e),
                    Ok((h3, dummy)) => h3.apply(app1, dummy),
                },
            },
        }
    }

    /// The first part of a pair.
    #[verifier::opaque]
    pub open spec fn pair_fst(self, node: u32, fuel: nat) -> Outcome<(u32, nat)> {
        match self.apply_fst(node) {
            Err(e) => Err(e),
            Ok((h, app)) => h.eval(app, fuel),
        }
    }

    /// The second part of a pair.
    #[verifier::opaque]
    pub open spec fn pair_snd(self, node: u32, fuel: nat) -> Outcome<(u32, nat)> {
        match self.apply_snd(node) {
            Err(e) => Err(e),
            Ok((h, app)) => h.eval(app, fuel),
        }
    }

    /// The first part of a pair that takes one argument.
    #[verifier::opaque]
    pub open spec fn pair1_fst(self, node: u32, fuel: nat) -> Outcome<(u32, nat)> {
        match self.intern_k() {
            Err(e) => Err(e),
            Ok((h1, k)) => match h1.apply(node, k) {
                Err(e) => Err(e),
                Ok((h2, app)) => h2.eval(app, fuel),
            },
        }
    }

    /// The second part of a pair that takes one argument.
    #[verifier::opaque]
    pub open spec fn pair1_snd(self, node: u32, fuel: nat) -> Outcome<(u32, nat)> {
        match self.intern_ki() {
            Err(e) => Err(e),
            Ok((h1, ki)) => match h1.apply(node, ki) {
                Err(e) => Err(e),
                Ok((h2, app)) => h2.eval(app, fuel),
            },
        }
    }

    /// The function returned `r`, and left the arena in the state `h` and `f`
    /// units of fuel, as the outcome `s` says.
    pub open spec fn ran_fuel<A>(
        s: Outcome<(A, nat)>,
        h: Heap,
        r: Result<A, AllocError>,
        f: u64,
    ) -> bool {
        match r {
            Ok(x) => s == Ok::<(Heap, (A, nat)), AllocError>((h, (x, f as nat))),
            Err(e) => s == Err::<(Heap, (A, nat)), AllocError>(e),
        }
    }
}

/// Application.
pub proof fn lemma_apply(h: Heap, f: u32, x: u32)
    requires
        h.wf(),
        h.live(f),
        h.live(x),
    ensures
        h.interns(h.apply(f, x), 1, Term::app(h.term(f), h.term(x))),
        h.apply(f, x) matches Ok((h1, _)) ==> h1.room() < h.room(),
{
    crate::heap::lemma_alloc(h, Node { tag: APP, a: f, b: x });
}

/// Application to the markers.
pub proof fn lemma_apply_markers(h: Heap, node: u32)
    requires
        h.wf(),
        h.live(node),
    ensures
        h.interns(
            h.apply_markers(node),
            4,
            Term::app2(h.term(node), Term::Atom(MARKER_T), Term::Atom(MARKER_F)),
        ),
        h.apply_markers(node) matches Ok((h1, _)) ==> h1.room() < h.room(),
{
    crate::intern::lemma_intern_marker_t(h);
    if let Ok((h1, t)) = h.intern_marker_t() {
        crate::intern::lemma_intern_marker_f(h1);
        if let Ok((h2, f)) = h1.intern_marker_f() {
            assert(h1.live(t) && h1.live(node));
            lemma_apply(h2, node, t);
            crate::heap::lemma_builds_trans(h, h1, h2, 1, 1);
            if let Ok((h3, app1)) = h2.apply(node, t) {
                assert(h2.live(f));
                lemma_apply(h3, app1, f);
                crate::heap::lemma_builds_trans(h, h2, h3, 2, 1);
                if let Ok((h4, app2)) = h3.apply(app1, f) {
                    crate::heap::lemma_builds_trans(h, h3, h4, 3, 1);
                }
            }
        }
    }
}

/// Application to `K` and `I`.
pub proof fn lemma_apply_fst(h: Heap, node: u32)
    requires
        h.wf(),
        h.live(node),
    ensures
        h.interns(
            h.apply_fst(node),
            4,
            Term::app2(h.term(node), Term::Atom(K), Term::Atom(I)),
        ),
        h.apply_fst(node) matches Ok((h1, _)) ==> h1.room() < h.room(),
{
    crate::intern::lemma_intern_k(h);
    if let Ok((h1, k)) = h.intern_k() {
        assert(h1.live(node));
        lemma_apply(h1, node, k);
        if let Ok((h2, app1)) = h1.apply(node, k) {
            crate::intern::lemma_intern_i(h2);
            crate::heap::lemma_builds_trans(h, h1, h2, 1, 1);
            if let Ok((h3, i)) = h2.intern_i() {
                assert(h2.live(app1));
                lemma_apply(h3, app1, i);
                crate::heap::lemma_builds_trans(h, h2, h3, 2, 1);
                if let Ok((h4, app2)) = h3.apply(app1, i) {
                    crate::heap::lemma_builds_trans(h, h3, h4, 3, 1);
                }
            }
        }
    }
}

/// Application to `K I` and `I`.
pub proof fn lemma_apply_snd(h: Heap, node: u32)
    requires
        h.wf(),
        h.live(node),
    ensures
        h.interns(
            h.apply_snd(node),
            5,
            Term::app2(h.term(node), Term::app(Term::Atom(K), Term::Atom(I)), Term::Atom(I)),
        ),
        h.apply_snd(node) matches Ok((h1, _)) ==> h1.room() < h.room(),
{
    crate::intern::lemma_intern_ki(h);
    if let Ok((h1, k)) = h.intern_ki() {
        assert(h1.live(node));
        lemma_apply(h1, node, k);
        if let Ok((h2, app1)) = h1.apply(node, k) {
            crate::intern::lemma_intern_i(h2);
            crate::heap::lemma_builds_trans(h, h1, h2, 2, 1);
            if let Ok((h3, i)) = h2.intern_i() {
                assert(h2.live(app1));
                lemma_apply(h3, app1, i);
                crate::heap::lemma_builds_trans(h, h2, h3, 3, 1);
                if let Ok((h4, app2)) = h3.apply(app1, i) {
                    crate::heap::lemma_builds_trans(h, h3, h4, 4, 1);
                }
            }
        }
    }
}

/// Reading a boolean leaves the arena well formed, with less room.
pub proof fn lemma_decode_bool(h: Heap, node: u32, fuel: nat)
    requires
        h.wf(),
        h.live(node),
    ensures
        h.decode_bool(node, fuel) matches Ok((h1, _)) ==> h.leads_to(h1) && h1.room() < h.room(),
{
    reveal(Heap::decode_bool);
    lemma_apply_markers(h, node);
    if let Ok((h1, app2)) = h.apply_markers(node) {
        crate::machine::lemma_whnf(h1, app2, fuel);
    }
}

/// Taking the first part leaves the arena well formed, with less room.
pub proof fn lemma_pair_fst(h: Heap, node: u32, fuel: nat)
    requires
        h.wf(),
        h.live(node),
    ensures
        h.pair_fst(node, fuel) matches Ok((h1, (r, f))) ==> h.leads_to(h1) && h1.room() < h.room()
            && h1.live(r) && f <= fuel && Term::app2(
            h.term(node),
            Term::Atom(K),
            Term::Atom(I),
        ).reduces(h1.term(r)),
{
    reveal(Heap::pair_fst);
    lemma_apply_fst(h, node);
    if let Ok((h1, app2)) = h.apply_fst(node) {
        lemma_eval(h1, app2, fuel);
    }
}

/// Taking the second part leaves the arena well formed, with less room.
pub proof fn lemma_pair_snd(h: Heap, node: u32, fuel: nat)
    requires
        h.wf(),
        h.live(node),
    ensures
        h.pair_snd(node, fuel) matches Ok((h1, (r, f))) ==> h.leads_to(h1) && h1.room() < h.room()
            && h1.live(r) && f <= fuel && Term::app2(
            h.term(node),
            Term::app(Term::Atom(K), Term::Atom(I)),
            Term::Atom(I),
        ).reduces(h1.term(r)),
{
    reveal(Heap::pair_snd);
    lemma_apply_snd(h, node);
    if let Ok((h1, app2)) = h.apply_snd(node) {
        lemma_eval(h1, app2, fuel);
    }
}

/// Taking the first part of a pair that takes one argument leaves the arena well
/// formed.
pub proof fn lemma_pair1_fst(h: Heap, node: u32, fuel: nat)
    requires
        h.wf(),
        h.live(node),
    ensures
        h.pair1_fst(node, fuel) matches Ok((h1, (r, f))) ==> h.leads_to(h1) && h1.live(r) && f
            <= fuel && Term::app(h.term(node), Term::Atom(K)).reduces(h1.term(r)),
{
    reveal(Heap::pair1_fst);
    crate::intern::lemma_intern_k(h);
    if let Ok((h1, k)) = h.intern_k() {
        assert(h1.live(node));
        lemma_apply(h1, node, k);
        if let Ok((h2, app)) = h1.apply(node, k) {
            lemma_eval(h2, app, fuel);
        }
    }
}

/// Taking the second part of a pair that takes one argument leaves the arena
/// well formed.
pub proof fn lemma_pair1_snd(h: Heap, node: u32, fuel: nat)
    requires
        h.wf(),
        h.live(node),
    ensures
        h.pair1_snd(node, fuel) matches Ok((h1, (r, f))) ==> h.leads_to(h1) && h1.live(r) && f
            <= fuel && Term::app(h.term(node), Term::no()).reduces(h1.term(r)),
{
    reveal(Heap::pair1_snd);
    crate::intern::lemma_intern_ki(h);
    if let Ok((h1, ki)) = h.intern_ki() {
        assert(h1.live(node));
        lemma_apply(h1, node, ki);
        if let Ok((h2, app)) = h1.apply(node, ki) {
            lemma_eval(h2, app, fuel);
        }
    }
}

/// What evaluation gives is live, and is what the node stands for.
pub proof fn lemma_eval(h: Heap, node: u32, fuel: nat)
    requires
        h.wf(),
        h.live(node),
    ensures
        h.eval(node, fuel) matches Ok((h1, (r, f))) ==> {
            &&& h.leads_to(h1)
            &&& h1.live(r)
            &&& h1.tag(r) != IND
            &&& f <= fuel
            &&& h1.term(r) == h1.term(node)
            &&& h.term(node).reduces(h1.term(r))
            &&& f > 0 ==> h1.term(r).step() is None
        },
{
    reveal(Heap::eval);
    crate::machine::lemma_whnf(h, node, fuel);
    if let Ok((h1, (_, f))) = h.whnf(node, fuel) {
        assert(h1.live(node));
        crate::heap::lemma_leads_node(h, h1, node);
        crate::graph::lemma_follow(h1.graph, node, h1.graph.ranking());
    }
}

/// Evaluation that takes no fuel changes no expression.
pub proof fn lemma_eval_idle(h: Heap, node: u32, fuel: nat)
    requires
        h.wf(),
        h.live(node),
        fuel > 0,
    ensures
        h.eval(node, fuel) matches Ok((h1, (r, f))) ==> (f == fuel ==> h1.term(r) == h.term(node)
            && forall|i: u32| #[trigger] h.live(i) ==> h1.term(i) == h.term(i)),
{
    reveal(Heap::eval);
    crate::machine::lemma_whnf_idle(h, node, fuel);
    lemma_eval(h, node, fuel);
}

/// An expression that is `k` leftmost reductions from its weak head normal
/// form is evaluated with `k` units of fuel and `3 k` nodes.
pub proof fn lemma_eval_reaches(h: Heap, node: u32, fuel: nat, k: nat, w: Term)
    requires
        h.wf(),
        h.live(node),
        h.term(node).reaches(k, w),
        fuel > k,
        h.room() >= 3 * k,
    ensures
        h.eval(node, fuel) matches Ok((h1, (r, f))) && f + k >= fuel && h1.room() + 3 * k
            >= h.room() && w.reduces(h1.term(r)),
{
    reveal(Heap::eval);
    crate::machine::lemma_whnf_reaches(h, node, fuel, k, w);
    crate::machine::lemma_whnf(h, node, fuel);
}

impl Arena {
    /// Evaluates a node in place.
    pub fn eval(&mut self, node: u32, fuel: &mut u64) -> (r: Result<u32, AllocError>)
        requires
            old(self)@.wf(),
            old(self)@.live(node),
        ensures
            Heap::ran_fuel(
                old(self)@.eval(node, *old(fuel) as nat),
                final(self)@,
                r,
                *final(fuel),
            ),
            old(self)@.leads_to(final(self)@),
            *final(fuel) <= *old(fuel),
            r matches Ok(i) ==> final(self)@.live(i) && final(self)@.tag(i) != IND && old(self)@.term(node).reduces(final(self)@.term(i)),
            r matches Ok(i) ==> *final(fuel) > 0 ==> final(self)@.term(i).step() is None,
    {
        proof {
            reveal(Heap::eval);
            lemma_eval(self@, node, *fuel as nat);
        }
        let _ = self.whnf(node, fuel)?;
        Ok(self.follow(node))
    }

    fn apply_markers(&mut self, node: u32) -> (r: Result<u32, AllocError>)
        requires
            old(self)@.wf(),
            old(self)@.live(node),
        ensures
            Heap::ran(old(self)@.apply_markers(node), final(self)@, r),
            old(self)@.leads_to(final(self)@),
            r matches Ok(i) ==> final(self)@.live(i),
    {
        let marker_t: u32 = self.intern_marker_t()?;
        let marker_f: u32 = self.intern_marker_f()?;
        let app1: u32 = self.allocate(APP, node, marker_t)?;
        self.allocate(APP, app1, marker_f)
    }

    fn apply_fst(&mut self, node: u32) -> (r: Result<u32, AllocError>)
        requires
            old(self)@.wf(),
            old(self)@.live(node),
        ensures
            Heap::ran(old(self)@.apply_fst(node), final(self)@, r),
            old(self)@.leads_to(final(self)@),
            r matches Ok(i) ==> final(self)@.live(i),
    {
        let k_sel: u32 = self.intern_k()?;
        let app1: u32 = self.allocate(APP, node, k_sel)?;
        let dummy: u32 = self.intern_i()?;
        self.allocate(APP, app1, dummy)
    }

    fn apply_snd(&mut self, node: u32) -> (r: Result<u32, AllocError>)
        requires
            old(self)@.wf(),
            old(self)@.live(node),
        ensures
            Heap::ran(old(self)@.apply_snd(node), final(self)@, r),
            old(self)@.leads_to(final(self)@),
            r matches Ok(i) ==> final(self)@.live(i),
    {
        let ki: u32 = self.intern_ki()?;
        let app1: u32 = self.allocate(APP, node, ki)?;
        let dummy: u32 = self.intern_i()?;
        self.allocate(APP, app1, dummy)
    }
}

/// Reads a boolean: applies it to two markers and looks which one it picks.
pub fn decode_bool(arena: &mut Arena, node: u32, fuel: u64) -> (r: Result<Option<bool>, AllocError>)
    requires
        old(arena)@.wf(),
        old(arena)@.live(node),
    ensures
        Heap::ran(old(arena)@.decode_bool(node, fuel as nat), final(arena)@, r),
        old(arena)@.leads_to(final(arena)@),
        r is Ok ==> final(arena)@.room() < old(arena)@.room(),
        forall|b: bool| #[trigger]
            Term::boolean(b).reduces(old(arena)@.term(node)) && fuel > 4 && old(arena)@.room() >= 16
                ==> r == Ok::<Option<bool>, AllocError>(Some(b)),
        forall|v: bool, b: nat| #[trigger]
            old(arena)@.term(node).says(v, b) && fuel > b && old(arena)@.room() >= 4 + 3 * b ==> r
                == Ok::<Option<bool>, AllocError>(Some(v)),
{
    proof {
        lemma_decode_bool(arena@, node, fuel as nat);
        crate::term::lemma_reduces_refl(arena@.term(node));
        assert forall|v: bool, b: nat| #[trigger]
            arena@.term(node).says(v, b) && fuel > b && arena@.room() >= 4 + 3 * b implies (
        arena@.decode_bool(node, fuel as nat) matches Ok((_, x)) && x == Some(v)) by {
            crate::meaning::lemma_read_bool(arena@, node, fuel as nat, arena@.term(node), v, b);
        }
        assert forall|b: bool| #[trigger]
            Term::boolean(b).reduces(arena@.term(node)) && fuel > 4 && arena@.room()
                >= 16 implies (arena@.decode_bool(node, fuel as nat) matches Ok((_, x)) && x
            == Some(b)) by {
            crate::laws::lemma_decode_bool_law(arena@, node, fuel as nat, b);
        }
        reveal(Heap::decode_bool);
    }
    let app2: u32 = arena.apply_markers(node)?;
    let mut f: u64 = fuel;
    let result: u32 = arena.whnf(app2, &mut f)?;
    let result: u32 = arena.follow(result);
    let tag: u8 = arena.node(result).tag;
    if tag == MARKER_T {
        Ok(Some(true))
    } else if tag == MARKER_F {
        Ok(Some(false))
    } else {
        Ok(None)
    }
}

/// The first part of a pair: the pair hands both parts to `K`.
pub fn pair_fst(arena: &mut Arena, node: u32, fuel: &mut u64) -> (r: Result<u32, AllocError>)
    requires
        old(arena)@.wf(),
        old(arena)@.live(node),
    ensures
        Heap::ran_fuel(
            old(arena)@.pair_fst(node, *old(fuel) as nat),
            final(arena)@,
            r,
            *final(fuel),
        ),
        old(arena)@.leads_to(final(arena)@),
        *final(fuel) <= *old(fuel),
        r matches Ok(i) ==> final(arena)@.live(i) && final(arena)@.room() < old(arena)@.room(),
        r matches Ok(i) ==> Term::app2(
            old(arena)@.term(node),
            Term::Atom(K),
            Term::Atom(I),
        ).reduces(final(arena)@.term(i)),
{
    proof {
        reveal(Heap::pair_fst);
    }
    proof {
        lemma_pair_fst(arena@, node, *fuel as nat);
    }
    let app2: u32 = arena.apply_fst(node)?;
    arena.eval(app2, fuel)
}

/// The second part of a pair: the pair hands both parts to `K I`.
pub fn pair_snd(arena: &mut Arena, node: u32, fuel: &mut u64) -> (r: Result<u32, AllocError>)
    requires
        old(arena)@.wf(),
        old(arena)@.live(node),
    ensures
        Heap::ran_fuel(
            old(arena)@.pair_snd(node, *old(fuel) as nat),
            final(arena)@,
            r,
            *final(fuel),
        ),
        old(arena)@.leads_to(final(arena)@),
        *final(fuel) <= *old(fuel),
        r matches Ok(i) ==> final(arena)@.live(i) && final(arena)@.room() < old(arena)@.room(),
        r matches Ok(i) ==> Term::app2(
            old(arena)@.term(node),
            Term::app(Term::Atom(K), Term::Atom(I)),
            Term::Atom(I),
        ).reduces(final(arena)@.term(i)),
{
    proof {
        reveal(Heap::pair_snd);
    }
    proof {
        lemma_pair_snd(arena@, node, *fuel as nat);
    }
    let app2: u32 = arena.apply_snd(node)?;
    arena.eval(app2, fuel)
}

/// The first part of a pair that takes one argument.
pub fn pair1_fst(arena: &mut Arena, node: u32, fuel: &mut u64) -> (r: Result<u32, AllocError>)
    requires
        old(arena)@.wf(),
        old(arena)@.live(node),
    ensures
        Heap::ran_fuel(
            old(arena)@.pair1_fst(node, *old(fuel) as nat),
            final(arena)@,
            r,
            *final(fuel),
        ),
        old(arena)@.leads_to(final(arena)@),
        *final(fuel) <= *old(fuel),
        r matches Ok(i) ==> final(arena)@.live(i),
{
    proof {
        reveal(Heap::pair1_fst);
    }
    let k_sel: u32 = arena.intern_k()?;
    let app: u32 = arena.allocate(APP, node, k_sel)?;
    arena.eval(app, fuel)
}

/// The second part of a pair that takes one argument.
pub fn pair1_snd(arena: &mut Arena, node: u32, fuel: &mut u64) -> (r: Result<u32, AllocError>)
    requires
        old(arena)@.wf(),
        old(arena)@.live(node),
    ensures
        Heap::ran_fuel(
            old(arena)@.pair1_snd(node, *old(fuel) as nat),
            final(arena)@,
            r,
            *final(fuel),
        ),
        old(arena)@.leads_to(final(arena)@),
        *final(fuel) <= *old(fuel),
        r matches Ok(i) ==> final(arena)@.live(i),
{
    proof {
        reveal(Heap::pair1_snd);
    }
    let ki: u32 = arena.intern_ki()?;
    let app: u32 = arena.allocate(APP, node, ki)?;
    arena.eval(app, fuel)
}

} // verus!
