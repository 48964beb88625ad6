//! SKI expressions and their reduction.
//!
//! [`Term::step`] is one leftmost reduction, the strategy of the evaluator.
//! [`Term::par`] contracts any number of redexes side by side; it is what
//! overwriting one shared node of a graph does to the expressions around it.

use vstd::prelude::*;
use crate::node::{I, K, S};

verus! {

/// An expression: an atom (a combinator or a marker, by its tag) or an
/// application.
pub enum Term {
    Atom(u8),
    App(Box<Term>, Box<Term>),
}

impl Term {
    pub open spec fn app(f: Term, x: Term) -> Term {
        Term::App(Box::new(f), Box::new(x))
    }

    pub open spec fn app2(f: Term, x: Term, y: Term) -> Term {
        Term::app(Term::app(f, x), y)
    }

    pub open spec fn is_app(self) -> bool {
        self is App
    }

    /// The function of an application.
    pub open spec fn fun(self) -> Term {
        *self->App_0
    }

    /// The argument of an application.
    pub open spec fn arg(self) -> Term {
        *self->App_1
    }

    /// `I x`
    pub open spec fn is_i_redex(self) -> bool {
        self.is_app() && self.fun() == Term::Atom(I)
    }

    /// `K x y`
    pub open spec fn is_k_redex(self) -> bool {
        self.is_app() && self.fun().is_app() && self.fun().fun() == Term::Atom(K)
    }

    /// `S f g x`
    pub open spec fn is_s_redex(self) -> bool {
        self.is_app() && self.fun().is_app() && self.fun().fun().is_app()
            && self.fun().fun().fun() == Term::Atom(S)
    }

    /// One leftmost reduction, unless the expression is in weak head normal
    /// form: `I x` gives `x`, `K x y` gives `x`, `S f g x` gives `f x (g x)`.
    pub open spec fn step(self) -> Option<Term>
        decreases self,
    {
        if self.is_i_redex() {
            Some(self.arg())
        } else if self.is_k_redex() {
            Some(self.fun().arg())
        } else if self.is_s_redex() {
            let f = self.fun().fun().arg();
            let g = self.fun().arg();
            let x = self.arg();
            Some(Term::app(Term::app(f, x), Term::app(g, x)))
        } else if self.is_app() {
            match self.fun().step() {
                Some(f) => Some(Term::app(f, self.arg())),
                None => None,
            }
        } else {
            None
        }
    }

    /// `n` results from contracting some of the redexes of `self`, each at
    /// most once.
    pub open spec fn par(self, n: Term) -> bool
        decreases self,
    {
        ||| self == n
        ||| self.is_app() && n.is_app() && self.fun().par(n.fun()) && self.arg().par(n.arg())
        ||| self.is_i_redex() && self.arg().par(n)
        ||| self.is_k_redex() && self.fun().arg().par(n)
        ||| self.is_s_redex() && n.is_app() && n.fun().is_app() && n.arg().is_app()
            && n.fun().arg() == n.arg().arg() && self.fun().fun().arg().par(n.fun().fun())
            && self.fun().arg().par(n.arg().fun()) && self.arg().par(n.arg().arg())
    }

    /// `n` is what `k` leftmost reductions make of `self`.
    pub open spec fn steps(self, k: nat, n: Term) -> bool
        decreases k,
    {
        if k == 0 {
            self == n
        } else {
            match self.step() {
                Some(t) => t.steps((k - 1) as nat, n),
                None => false,
            }
        }
    }

    /// `k` leftmost reductions lead to the weak head normal form `w`.
    pub open spec fn reaches(self, k: nat, w: Term) -> bool {
        self.steps(k, w) && w.step() is None
    }

    /// `self` reduces to `n`: by some number of parallel reductions.
    pub open spec fn reduces(self, n: Term) -> bool {
        exists|k: nat| self.pars(k, n)
    }

    /// `n` is what `k` parallel reductions make of `self`.
    pub open spec fn pars(self, k: nat, n: Term) -> bool
        decreases k,
    {
        if k == 0 {
            self == n
        } else {
            exists|t: Term| #[trigger] self.par(t) && t.pars((k - 1) as nat, n)
        }
    }

    /// The function at the head of the application, below its arguments.
    pub open spec fn head(self) -> Term
        decreases self,
    {
        if self.is_app() {
            self.fun().head()
        } else {
            self
        }
    }

    /// The number of arguments that the head is applied to.
    pub open spec fn arity(self) -> nat
        decreases self,
    {
        if self.is_app() {
            self.fun().arity() + 1
        } else {
            0
        }
    }

    /// The number of arguments that a combinator waits for.
    pub open spec fn wants(self) -> Option<nat> {
        if self == Term::Atom(S) {
            Some(3)
        } else if self == Term::Atom(K) {
            Some(2)
        } else if self == Term::Atom(I) {
            Some(1)
        } else {
            None
        }
    }
}

pub proof fn lemma_par_refl(m: Term)
    ensures
        m.par(m),
{
}

/// An application that is no redex is reduced part by part.
proof fn lemma_par_parts(m: Term, n: Term)
    requires
        m.par(n),
        !m.is_i_redex(),
        !m.is_k_redex(),
        !m.is_s_redex(),
    ensures
        n.is_app() == m.is_app(),
        m.is_app() ==> m.fun().par(n.fun()) && m.arg().par(n.arg()),
        !m.is_app() ==> n == m,
{
    if m.is_app() {
        lemma_par_refl(m.fun());
        lemma_par_refl(m.arg());
    }
}

pub proof fn lemma_par_app(f: Term, x: Term, f1: Term, x1: Term)
    requires
        f.par(f1),
        x.par(x1),
    ensures
        Term::app(f, x).par(Term::app(f1, x1)),
{
}

/// A leftmost reduction commutes with parallel reduction: what was contracted
/// beside it does not have to be contracted again.
pub proof fn lemma_par_step(m: Term, n: Term) -> (n1: Term)
    requires
        m.par(n),
        m.step() is Some,
    ensures
        n1 == n || n.step() == Some(n1),
        m.step()->0.par(n1),
    decreases m,
{
    reveal_with_fuel(Term::step, 3);
    let m1 = m.step()->0;
    if m == n {
        lemma_par_refl(m1);
        m1
    } else if m.is_i_redex() {
        if m.arg().par(n) {
            n
        } else {
            lemma_par_parts(m.fun(), n.fun());
            n.arg()
        }
    } else if m.is_k_redex() {
        if m.fun().arg().par(n) {
            n
        } else {
            lemma_par_parts(m.fun(), n.fun());
            lemma_par_parts(m.fun().fun(), n.fun().fun());
            n.fun().arg()
        }
    } else if m.is_s_redex() {
        if n.is_app() && m.fun().par(n.fun()) && m.arg().par(n.arg()) {
            lemma_par_parts(m.fun(), n.fun());
            lemma_par_parts(m.fun().fun(), n.fun().fun());
            lemma_par_parts(m.fun().fun().fun(), n.fun().fun().fun());
            let n1 = n.step()->0;
            lemma_par_app(m1.fun().fun(), m1.fun().arg(), n1.fun().fun(), n1.fun().arg());
            lemma_par_app(m1.arg().fun(), m1.arg().arg(), n1.arg().fun(), n1.arg().arg());
            n1
        } else {
            lemma_par_app(m1.fun().fun(), m1.fun().arg(), n.fun().fun(), n.fun().arg());
            lemma_par_app(m1.arg().fun(), m1.arg().arg(), n.arg().fun(), n.arg().arg());
            n
        }
    } else {
        lemma_par_parts(m, n);
        let u = lemma_par_step(m.fun(), n.fun());
        lemma_par_app(m1.fun(), m1.arg(), u, n.arg());
        if u == n.fun() {
            n
        } else {
            Term::app(u, n.arg())
        }
    }
}

/// Parallel reduction keeps a weak head normal form one, and keeps its head
/// and the number of its arguments.
pub proof fn lemma_par_normal(m: Term, n: Term)
    requires
        m.par(n),
        m.step() is None,
    ensures
        n.step() is None,
        n.head() == m.head(),
        n.arity() == m.arity(),
        m.is_app() == n.is_app(),
        m.is_app() ==> m.fun().par(n.fun()) && m.arg().par(n.arg()),
        !m.is_app() ==> m == n,
    decreases m,
{
    reveal_with_fuel(Term::step, 4);
    lemma_par_parts(m, n);
    if m.is_app() {
        lemma_par_normal(m.fun(), n.fun());
        lemma_par_parts(m.fun(), n.fun());
        if m.fun().is_app() {
            lemma_par_parts(m.fun().fun(), n.fun().fun());
            if m.fun().fun().is_app() {
                lemma_par_normal(m.fun().fun(), n.fun().fun());
                lemma_par_parts(m.fun().fun().fun(), n.fun().fun().fun());
            }
        }
    }
}

/// An expression is in weak head normal form when its head is no combinator
/// or has too few arguments.
pub proof fn lemma_normal(t: Term)
    ensures
        t.step() is None <==> (t.head().wants() matches Some(k) ==> t.arity() < k),
        !t.head().is_app(),
    decreases t,
{
    reveal_with_fuel(Term::step, 2);
    reveal_with_fuel(Term::head, 4);
    reveal_with_fuel(Term::arity, 4);
    if t.is_app() {
        lemma_normal(t.fun());
        if t.fun().is_app() {
            lemma_normal(t.fun().fun());
        }
    }
}

/// A reduction of the function is a reduction of the application.
pub proof fn lemma_step_app(f: Term, x: Term)
    requires
        f.step() is Some,
    ensures
        Term::app(f, x).step() == Some(Term::app(f.step()->0, x)),
{
    reveal_with_fuel(Term::step, 3);
}

pub proof fn lemma_pars_trans(m: Term, n: Term, p: Term, j: nat, k: nat)
    requires
        m.pars(j, n),
        n.pars(k, p),
    ensures
        m.pars(j + k, p),
    decreases j,
{
    if j > 0 {
        let t = choose|t: Term| #[trigger] m.par(t) && t.pars((j - 1) as nat, n);
        lemma_pars_trans(t, n, p, (j - 1) as nat, k);
        assert((j - 1) as nat + k == (j + k - 1) as nat);
    }
}

pub proof fn lemma_reduces_refl(m: Term)
    ensures
        m.reduces(m),
{
    assert(m.pars(0, m));
}

pub proof fn lemma_par_reduces(m: Term, n: Term)
    requires
        m.par(n),
    ensures
        m.reduces(n),
{
    assert(n.pars(0, n));
    assert(m.pars(1, n));
}

pub proof fn lemma_reduces_trans(m: Term, n: Term, p: Term)
    requires
        m.reduces(n),
        n.reduces(p),
    ensures
        m.reduces(p),
{
    let j = choose|j: nat| m.pars(j, n);
    let k = choose|k: nat| n.pars(k, p);
    lemma_pars_trans(m, n, p, j, k);
}

/// Parallel reduction does not lengthen the way to the normal form.
pub proof fn lemma_par_reaches(m: Term, n: Term, k: nat, w: Term) -> (r: (nat, Term))
    requires
        m.par(n),
        m.reaches(k, w),
    ensures
        r.0 <= k,
        n.reaches(r.0, r.1),
        w.par(r.1),
    decreases k,
{
    if k == 0 {
        lemma_par_normal(m, n);
        (0, n)
    } else {
        let m1 = m.step()->0;
        let n1 = lemma_par_step(m, n);
        let r = lemma_par_reaches(m1, n1, (k - 1) as nat, w);
        if n1 == n {
            r
        } else {
            (r.0 + 1, r.1)
        }
    }
}

proof fn lemma_pars_reaches(m: Term, n: Term, j: nat, k: nat, w: Term) -> (r: (nat, Term))
    requires
        m.pars(j, n),
        m.reaches(k, w),
    ensures
        r.0 <= k,
        n.reaches(r.0, r.1),
        w.reduces(r.1),
    decreases j,
{
    if j == 0 {
        lemma_reduces_refl(w);
        (k, w)
    } else {
        let t = choose|t: Term| #[trigger] m.par(t) && t.pars((j - 1) as nat, n);
        let q = lemma_par_reaches(m, t, k, w);
        let r = lemma_pars_reaches(t, n, (j - 1) as nat, q.0, q.1);
        lemma_par_reduces(w, q.1);
        lemma_reduces_trans(w, q.1, r.1);
        r
    }
}

/// Reduction does not lengthen the way to the normal form.
pub proof fn lemma_reduces_reaches(m: Term, n: Term, k: nat, w: Term) -> (r: (nat, Term))
    requires
        m.reduces(n),
        m.reaches(k, w),
    ensures
        r.0 <= k,
        n.reaches(r.0, r.1),
        w.reduces(r.1),
{
    let j = choose|j: nat| m.pars(j, n);
    lemma_pars_reaches(m, n, j, k, w)
}

proof fn lemma_pars_app(f: Term, x: Term, f1: Term, x1: Term, j: nat, k: nat)
    requires
        f.pars(j, f1),
        x.pars(k, x1),
    ensures
        Term::app(f, x).pars(j + k, Term::app(f1, x1)),
    decreases j + k,
{
    if j > 0 {
        let t = choose|t: Term| #[trigger] f.par(t) && t.pars((j - 1) as nat, f1);
        lemma_pars_app(t, x, f1, x1, (j - 1) as nat, k);
        lemma_par_refl(x);
        lemma_par_app(f, x, t, x);
        assert((j - 1) as nat + k == (j + k - 1) as nat);
        assert(Term::app(f, x).par(Term::app(t, x)));
    } else if k > 0 {
        let t = choose|t: Term| #[trigger] x.par(t) && t.pars((k - 1) as nat, x1);
        lemma_pars_app(f, t, f1, x1, 0, (k - 1) as nat);
        lemma_par_refl(f);
        lemma_par_app(f, x, f, t);
        assert(Term::app(f, x).par(Term::app(f, t)));
    }
}

/// Reduction of the parts of an application is reduction of the application.
pub proof fn lemma_reduces_app(f: Term, x: Term, f1: Term, x1: Term)
    requires
        f.reduces(f1),
        x.reduces(x1),
    ensures
        Term::app(f, x).reduces(Term::app(f1, x1)),
{
    let j = choose|j: nat| f.pars(j, f1);
    let k = choose|k: nat| x.pars(k, x1);
    lemma_pars_app(f, x, f1, x1, j, k);
}

proof fn lemma_pars_normal(m: Term, n: Term, k: nat)
    requires
        m.pars(k, n),
        m.step() is None,
    ensures
        n.step() is None,
        n.head() == m.head(),
        n.arity() == m.arity(),
        m.is_app() == n.is_app(),
        m.is_app() ==> m.fun().reduces(n.fun()) && m.arg().reduces(n.arg()),
        !m.is_app() ==> m == n,
    decreases k,
{
    if k == 0 {
        if m.is_app() {
            lemma_reduces_refl(m.fun());
            lemma_reduces_refl(m.arg());
        }
    } else {
        let t = choose|t: Term| #[trigger] m.par(t) && t.pars((k - 1) as nat, n);
        lemma_par_normal(m, t);
        lemma_pars_normal(t, n, (k - 1) as nat);
        if m.is_app() {
            lemma_par_reduces(m.fun(), t.fun());
            lemma_par_reduces(m.arg(), t.arg());
            lemma_reduces_trans(m.fun(), t.fun(), n.fun());
            lemma_reduces_trans(m.arg(), t.arg(), n.arg());
        }
    }
}

/// Reduction keeps a weak head normal form one, and reduces it part by part.
pub proof fn lemma_reduces_normal(m: Term, n: Term)
    requires
        m.reduces(n),
        m.step() is None,
    ensures
        n.step() is None,
        n.head() == m.head(),
        n.arity() == m.arity(),
        m.is_app() == n.is_app(),
        m.is_app() ==> m.fun().reduces(n.fun()) && m.arg().reduces(n.arg()),
        !m.is_app() ==> m == n,
{
    let k = choose|k: nat| m.pars(k, n);
    lemma_pars_normal(m, n, k);
}

pub proof fn lemma_steps_trans(t: Term, u: Term, v: Term, j: nat, k: nat)
    requires
        t.steps(j, u),
        u.steps(k, v),
    ensures
        t.steps(j + k, v),
    decreases j,
{
    if j > 0 {
        lemma_steps_trans(t.step()->0, u, v, (j - 1) as nat, k);
    }
}

/// Reductions of the function are reductions of the application.
pub proof fn lemma_steps_app(f: Term, f1: Term, x: Term, k: nat)
    requires
        f.steps(k, f1),
    ensures
        Term::app(f, x).steps(k, Term::app(f1, x)),
    decreases k,
{
    if k > 0 {
        lemma_step_app(f, x);
        lemma_steps_app(f.step()->0, f1, x, (k - 1) as nat);
    }
}

/// Leftmost reductions are reductions.
pub proof fn lemma_steps_reduces(t: Term, u: Term, k: nat)
    requires
        t.steps(k, u),
    ensures
        t.reduces(u),
    decreases k,
{
    if k == 0 {
        lemma_reduces_refl(t);
    } else {
        let t1 = t.step()->0;
        lemma_steps_reduces(t1, u, (k - 1) as nat);
        lemma_step_par(t);
        lemma_par_reduces(t, t1);
        lemma_reduces_trans(t, t1, u);
    }
}

/// A leftmost reduction is a parallel one.
proof fn lemma_step_par(t: Term)
    requires
        t.step() is Some,
    ensures
        t.par(t.step()->0),
    decreases t,
{
    reveal_with_fuel(Term::step, 2);
    lemma_par_refl(t.arg());
    if t.is_i_redex() {
    } else if t.is_k_redex() {
        lemma_par_refl(t.fun().arg());
    } else if t.is_s_redex() {
        lemma_par_refl(t.fun().arg());
        lemma_par_refl(t.fun().fun().arg());
    } else {
        lemma_step_par(t.fun());
    }
}

/// There is one weak head normal form at most.
pub proof fn lemma_reaches_one(t: Term, k: nat, w: Term, j: nat, v: Term)
    requires
        t.reaches(k, w),
        t.reaches(j, v),
    ensures
        k == j,
        w == v,
    decreases k,
{
    if k > 0 && j > 0 {
        lemma_reaches_one(t.step()->0, (k - 1) as nat, w, (j - 1) as nat, v);
    }
}

} // verus!
