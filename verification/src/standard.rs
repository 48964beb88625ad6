//! Leftmost reduction finds every weak head normal form: what some reduction
//! leads to, leftmost reduction leads to as well.

use vstd::prelude::*;
use crate::term::Term;

verus! {

impl Term {
    /// `n` results from contracting redexes of `self` inside its arguments.
    pub open spec fn inner(self, n: Term) -> bool
        decreases self,
    {
        if self.is_app() {
            n.is_app() && self.fun().inner(n.fun()) && self.arg().par(n.arg())
        } else {
            self == n
        }
    }
}

proof fn lemma_inner_refl(t: Term)
    ensures
        t.inner(t),
    decreases t,
{
    if t.is_app() {
        lemma_inner_refl(t.fun());
        crate::term::lemma_par_refl(t.arg());
    }
}

/// Reduction inside the arguments is parallel reduction, and keeps the head and
/// the number of its arguments.
proof fn lemma_inner(t: Term, u: Term)
    requires
        t.inner(u),
    ensures
        t.par(u),
        t.head() == u.head(),
        t.arity() == u.arity(),
    decreases t,
{
    if t.is_app() {
        lemma_inner(t.fun(), u.fun());
    }
}

/// A parallel reduction is some leftmost reductions, and then reductions inside
/// the arguments.
proof fn lemma_factor(t: Term, u: Term) -> (r: (nat, Term))
    requires
        t.par(u),
    ensures
        t.steps(r.0, r.1),
        r.1.inner(u),
    decreases t,
{
    if t == u {
        lemma_inner_refl(t);
        (0, t)
    } else if u.is_app() && t.is_app() && t.fun().par(u.fun()) && t.arg().par(u.arg()) {
        let (k, f) = lemma_factor(t.fun(), u.fun());
        crate::term::lemma_steps_app(t.fun(), f, t.arg(), k);
        (k, Term::app(f, t.arg()))
    } else if t.is_i_redex() && t.arg().par(u) {
        let (k, v) = lemma_factor(t.arg(), u);
        assert(t.step() == Some(t.arg()));
        (k + 1, v)
    } else if t.is_k_redex() && t.fun().arg().par(u) {
        let (k, v) = lemma_factor(t.fun().arg(), u);
        assert(t.step() == Some(t.fun().arg()));
        (k + 1, v)
    } else {
        let (f, g, x) = (t.fun().fun().arg(), t.fun().arg(), t.arg());
        let (k, v) = lemma_factor(f, u.fun().fun());
        let gx = Term::app(g, x);
        let t1 = Term::app(Term::app(f, x), gx);
        assert(t.step() == Some(t1));
        crate::term::lemma_steps_app(f, v, x, k);
        crate::term::lemma_steps_app(Term::app(f, x), Term::app(v, x), gx, k);
        crate::term::lemma_par_app(g, x, u.arg().fun(), u.arg().arg());
        reveal_with_fuel(Term::inner, 3);
        assert(u.arg() == Term::app(u.arg().fun(), u.arg().arg()));
        (k + 1, Term::app(Term::app(v, x), gx))
    }
}

/// A leftmost reduction can be made before reductions inside the arguments.
proof fn lemma_postpone(s: Term, t: Term)
    requires
        s.inner(t),
        t.step() is Some,
    ensures
        s.step() is Some,
        s.step()->0.par(t.step()->0),
    decreases s,
{
    reveal_with_fuel(Term::inner, 4);
    lemma_inner(s, t);
    crate::term::lemma_normal(s);
    crate::term::lemma_normal(t);
    if t.is_i_redex() {
    } else if t.is_k_redex() {
    } else if t.is_s_redex() {
        let (f, g, x) = (s.fun().fun().arg(), s.fun().arg(), s.arg());
        let (f1, g1, x1) = (t.fun().fun().arg(), t.fun().arg(), t.arg());
        crate::term::lemma_par_app(f, x, f1, x1);
        crate::term::lemma_par_app(g, x, g1, x1);
        crate::term::lemma_par_app(
            Term::app(f, x),
            Term::app(g, x),
            Term::app(f1, x1),
            Term::app(g1, x1),
        );
    } else {
        lemma_postpone(s.fun(), t.fun());
        crate::term::lemma_step_app(s.fun(), s.arg());
        crate::term::lemma_step_app(t.fun(), t.arg());
        crate::term::lemma_par_app(
            s.fun().step()->0,
            s.arg(),
            t.fun().step()->0,
            t.arg(),
        );
    }
}

/// Before a parallel reduction there is a weak head normal form if there is one
/// after it.
proof fn lemma_par_standard(t: Term, u: Term, k: nat, w: Term) -> (r: (nat, Term))
    requires
        t.par(u),
        u.reaches(k, w),
    ensures
        t.reaches(r.0, r.1),
        r.1.par(w),
    decreases k,
{
    let (j, s) = lemma_factor(t, u);
    lemma_inner(s, u);
    crate::term::lemma_normal(s);
    crate::term::lemma_normal(u);
    if k == 0 {
        (j, s)
    } else {
        lemma_postpone(s, u);
        let s1 = s.step()->0;
        let (i, v) = lemma_par_standard(s1, u.step()->0, (k - 1) as nat, w);
        assert(s.steps(i + 1, v));
        crate::term::lemma_steps_trans(t, s, v, j, i + 1);
        (j + i + 1, v)
    }
}

proof fn lemma_pars_standard(t: Term, u: Term, n: nat, k: nat, w: Term) -> (r: (nat, Term))
    requires
        t.pars(n, u),
        u.reaches(k, w),
    ensures
        t.reaches(r.0, r.1),
        r.1.reduces(w),
    decreases n,
{
    if n == 0 {
        crate::term::lemma_reduces_refl(w);
        (k, w)
    } else {
        let m = choose|m: Term| #[trigger] t.par(m) && m.pars((n - 1) as nat, u);
        let (j, v) = lemma_pars_standard(m, u, (n - 1) as nat, k, w);
        let (i, x) = lemma_par_standard(t, m, j, v);
        crate::term::lemma_par_reduces(x, v);
        crate::term::lemma_reduces_trans(x, v, w);
        (i, x)
    }
}

/// Leftmost reduction leads to a weak head normal form if any reduction leads
/// to an expression that has one; the one reduces to the other.
pub proof fn lemma_standard(t: Term, u: Term, k: nat, w: Term) -> (r: (nat, Term))
    requires
        t.reduces(u),
        u.reaches(k, w),
    ensures
        t.reaches(r.0, r.1),
        r.1.reduces(w),
{
    let n = choose|n: nat| t.pars(n, u);
    lemma_pars_standard(t, u, n, k, w)
}

} // verus!
