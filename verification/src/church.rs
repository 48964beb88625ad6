//! Church numerals.

use vstd::prelude::*;
use crate::arena::Arena;
use crate::heap::{AllocError, Heap, Outcome};
use crate::node::{APP, I, IND, K, MARKER_SUCC, MARKER_ZERO, NIL, Node, S};
use crate::term::Term;

verus! {

broadcast use crate::heap::group_leads;

impl Heap {
    /// Applies a node to new markers for the function and the base.
    pub open spec fn apply_church(self, node: u32) -> Outcome<u32> {
        match self.grow(Node::leaf(MARKER_SUCC)) {
            Err(e) => Err(e),
            Ok((h1, f)) => match h1.grow(Node::leaf(MARKER_ZERO)) {
                Err(e) => Err(e),
                Ok((h2, x)) => match h2.apply(node, f) {
                    Err(e) => Err(e),
                    Ok((h3, app1)) => h3.apply(app1, x),
                },
            },
        }
    }

    /// Counts how often the function marker is applied before the base marker
    /// comes, after `count` times. A node that is neither, and that evaluation
    /// leaves as it is, is no numeral.
    pub open spec fn church_count(self, cur: u32, fuel: nat, count: nat) -> Outcome<Option<u64>>
        decreases fuel, self.term(cur),
        when self.wf() && self.live(cur) && self.tag(cur) != IND
    {
        let n = self.at(cur);
        if fuel == 0 {
            Ok((self, None))
        } else if n.tag == MARKER_ZERO {
            Ok((self, Some(count as u64)))
        } else if n.tag != APP {
            Ok((self, None))
        } else if self.tag(self.follow(n.a)) == MARKER_SUCC {
            if count >= u64::MAX {
                Ok((self, None))
            } else {
                proof {
                    lemma_count(self, cur, fuel);
                }
                match self.eval(n.b, fuel) {
                    Err(e) => Err(e),
                    Ok((h, (c, f))) => h.church_count(c, f, count + 1),
                }
            }
        } else {
            proof {
                crate::select::lemma_eval(self, cur, fuel);
            }
            match self.eval(cur, fuel) {
                Err(e) => Err(e),
                Ok((h, (c, f))) => if f == fuel {
                    Ok((h, None))
                } else {
                    h.church_count(c, f, count)
                },
            }
        }
    }

    /// Reads a Church numeral.
    pub open spec fn decode_church_num(self, node: u32, fuel: nat) -> Outcome<Option<u64>> {
        match self.apply_church(node) {
            Err(e) => Err(e),
            Ok((h1, app2)) => match h1.eval(app2, fuel) {
                Err(e) => Err(e),
                Ok((h2, (cur, f))) => h2.church_count(cur, f, 0),
            },
        }
    }
}

/// Counting goes to a part of the expression, or takes fuel.
pub proof fn lemma_count(h: Heap, cur: u32, fuel: nat)
    requires
        h.wf(),
        h.live(cur),
        h.tag(cur) == APP,
        fuel > 0,
    ensures
        h.live(h.at(cur).b),
        h.live(h.at(cur).a),
        h.term(cur) == Term::app(h.term(h.at(cur).a), h.term(h.at(cur).b)),
        h.eval(h.at(cur).b, fuel) matches Ok((h1, (c, f))) ==> {
            &&& h.leads_to(h1)
            &&& h1.live(c)
            &&& h1.tag(c) != IND
            &&& f <= fuel
            &&& f < fuel || h1.term(c) == h.term(cur).arg()
        },
{
    assert(h.graph.live(cur));
    let b = h.at(cur).b;
    crate::select::lemma_eval(h, b, fuel);
    crate::select::lemma_eval_idle(h, b, fuel);
}

impl Term {
    /// The numeral chain of `n` applications of the function marker to the
    /// base marker, which unfolds within `k` reductions.
    pub open spec fn unfolds(self, n: nat, k: nat) -> bool
        decreases n,
    {
        exists|j: nat, w: Term| #[trigger]
            self.reaches(j, w) && j <= k && if n == 0 {
                w == Term::Atom(MARKER_ZERO)
            } else {
                w.is_app() && w.fun() == Term::Atom(MARKER_SUCC) && w.arg().unfolds(
                    (n - 1) as nat,
                    (k - j) as nat,
                )
            }
    }
}

/// Reduction does not lengthen the unfolding.
pub proof fn lemma_unfolds(t: Term, u: Term, n: nat, k: nat)
    requires
        t.unfolds(n, k),
        t.reduces(u),
    ensures
        u.unfolds(n, k),
    decreases n,
{
    let (j, w) = choose|j: nat, w: Term| #[trigger]
        t.reaches(j, w) && j <= k && if n == 0 {
            w == Term::Atom(MARKER_ZERO)
        } else {
            w.is_app() && w.fun() == Term::Atom(MARKER_SUCC) && w.arg().unfolds(
                (n - 1) as nat,
                (k - j) as nat,
            )
        };
    let (j1, w1) = crate::term::lemma_reduces_reaches(t, u, j, w);
    crate::term::lemma_reduces_normal(w, w1);
    if n > 0 {
        crate::term::lemma_normal(w.fun());
        assert(w.fun().step() is None);
        crate::term::lemma_reduces_normal(w.fun(), w1.fun());
        lemma_unfolds(w.arg(), w1.arg(), (n - 1) as nat, (k - j) as nat);
        lemma_unfolds_more(w1.arg(), (n - 1) as nat, (k - j) as nat, (k - j1) as nat);
    }
}

proof fn lemma_unfolds_more(t: Term, n: nat, k: nat, k1: nat)
    requires
        t.unfolds(n, k),
        k <= k1,
    ensures
        t.unfolds(n, k1),
    decreases n,
{
    let (j, w) = choose|j: nat, w: Term| #[trigger]
        t.reaches(j, w) && j <= k && if n == 0 {
            w == Term::Atom(MARKER_ZERO)
        } else {
            w.is_app() && w.fun() == Term::Atom(MARKER_SUCC) && w.arg().unfolds(
                (n - 1) as nat,
                (k - j) as nat,
            )
        };
    if n > 0 {
        lemma_unfolds_more(w.arg(), (n - 1) as nat, (k - j) as nat, (k1 - j) as nat);
    }
    assert(t.reaches(j, w));
}

/// Evaluating a numeral chain exposes its first application.
proof fn lemma_eval_unfolds(h: Heap, node: u32, fuel: nat, n: nat, k: nat)
    requires
        h.wf(),
        h.live(node),
        h.term(node).unfolds(n, k),
        fuel > k,
        h.room() >= 3 * k,
    ensures
        h.eval(node, fuel) matches Ok((h1, (c, f))) && {
            &&& h.leads_to(h1)
            &&& h1.live(c)
            &&& h1.tag(c) != IND
            &&& 0 < f <= fuel
            &&& n == 0 ==> h1.tag(c) == MARKER_ZERO
            &&& n > 0 ==> h1.tag(c) == APP && h1.tag(h1.follow(h1.at(c).a)) == MARKER_SUCC
            &&& h1.room() + 3 * k >= h.room()
            &&& n > 0 ==> exists|k1: nat|
                k1 < f && k1 <= k && h1.room() + 3 * (k - k1) >= h.room() && #[trigger] h1.term(
                    h1.at(c).b,
                ).unfolds((n - 1) as nat, k1)
        },
{
    let (j, w) = choose|j: nat, w: Term| #[trigger]
        h.term(node).reaches(j, w) && j <= k && if n == 0 {
            w == Term::Atom(MARKER_ZERO)
        } else {
            w.is_app() && w.fun() == Term::Atom(MARKER_SUCC) && w.arg().unfolds(
                (n - 1) as nat,
                (k - j) as nat,
            )
        };
    crate::select::lemma_eval_reaches(h, node, fuel, j, w);
    crate::select::lemma_eval(h, node, fuel);
    let (h1, (c, f)) = h.eval(node, fuel)->Ok_0;
    crate::term::lemma_reduces_normal(w, h1.term(c));
    assert(h1.graph.live(c));
    if n > 0 {
        crate::term::lemma_normal(w.fun());
        crate::term::lemma_reduces_normal(w.fun(), h1.term(c).fun());
        assert(h1.tag(c) == APP);
        let a = h1.at(c).a;
        assert(h1.live(a));
        crate::graph::lemma_follow(h1.graph, a, h1.graph.ranking());
        assert(h1.live(h1.follow(a)));
        lemma_unfolds(w.arg(), h1.term(c).arg(), (n - 1) as nat, (k - j) as nat);
        assert(h1.term(h1.at(c).b).unfolds((n - 1) as nat, (k - j) as nat));
    }
}

proof fn lemma_church_count(h: Heap, cur: u32, fuel: nat, count: nat, n: nat, k: nat)
    requires
        h.wf(),
        h.live(cur),
        h.tag(cur) != IND,
        fuel > k,
        h.room() >= 3 * k,
        count + n <= u64::MAX,
        n == 0 ==> h.tag(cur) == MARKER_ZERO,
        n > 0 ==> h.tag(cur) == APP && h.tag(h.follow(h.at(cur).a)) == MARKER_SUCC,
        n > 0 ==> h.live(h.at(cur).b) && h.term(h.at(cur).b).unfolds((n - 1) as nat, k),
    ensures
        h.church_count(cur, fuel, count) matches Ok((h1, r)) && r == Some((count + n) as u64)
            && h.leads_to(h1) && h1.room() + 3 * k >= h.room(),
    decreases n,
{
    crate::heap::lemma_leads_refl(h);
    if n > 0 {
        let b = h.at(cur).b;
        lemma_eval_unfolds(h, b, fuel, (n - 1) as nat, k);
        let (h1, (c, f)) = h.eval(b, fuel)->Ok_0;
        assert(h1.graph.live(c));
        if n > 1 {
            let k1 = choose|k1: nat|
                k1 < f && k1 <= k && h1.room() + 3 * (k - k1) >= h.room() && #[trigger] h1.term(
                    h1.at(c).b,
                ).unfolds((n - 2) as nat, k1);
            lemma_church_count(h1, c, f, count + 1, (n - 1) as nat, k1);
        } else {
            lemma_church_count(h1, c, f, count + 1, 0, 0);
        }
    }
}

/// What applies its first argument `n` times to its second is read as `n`,
/// given fuel for the reductions.
pub proof fn lemma_decode_church_num(h: Heap, node: u32, fuel: nat, n: u64, k: nat)
    requires
        h.wf(),
        h.live(node),
        h.term(node).counts(n as nat, k),
        fuel > k,
        h.room() >= 4 + 3 * k,
    ensures
        h.decode_church_num(node, fuel) matches Ok((h1, r)) && r == Some(n) && h.leads_to(h1)
            && h1.room() + 4 + 3 * k >= h.room(),
{
    lemma_apply_church(h, node);
    let (h1, app2) = h.apply_church(node)->Ok_0;
    lemma_eval_unfolds(h1, app2, fuel, n as nat, k);
    let (h2, (c, f)) = h1.eval(app2, fuel)->Ok_0;
    assert(h2.graph.live(c));
    if n > 0 {
        let k1 = choose|k1: nat|
            k1 < f && k1 <= k && h2.room() + 3 * (k - k1) >= h1.room() && #[trigger] h2.term(
                h2.at(c).b,
            ).unfolds((n - 1) as nat, k1);
        lemma_church_count(h2, c, f, 0, n as nat, k1);
    } else {
        lemma_church_count(h2, c, f, 0, 0, 0);
    }
}

pub proof fn lemma_apply_church(h: Heap, node: u32)
    requires
        h.wf(),
        h.live(node),
    ensures
        h.interns(
            h.apply_church(node),
            4,
            Term::app2(h.term(node), Term::Atom(MARKER_SUCC), Term::Atom(MARKER_ZERO)),
        ),
{
    crate::heap::lemma_alloc(h, Node::leaf(MARKER_SUCC));
    if let Ok((h1, s)) = h.grow(Node::leaf(MARKER_SUCC)) {
        crate::heap::lemma_alloc(h1, Node::leaf(MARKER_ZERO));
        if let Ok((h2, z)) = h1.grow(Node::leaf(MARKER_ZERO)) {
            assert(h1.live(s) && h1.live(node));
            crate::heap::lemma_builds_trans(h, h1, h2, 1, 1);
            crate::select::lemma_apply(h2, node, s);
            if let Ok((h3, app1)) = h2.apply(node, s) {
                assert(h2.live(z));
                crate::heap::lemma_builds_trans(h, h2, h3, 2, 1);
                crate::select::lemma_apply(h3, app1, z);
                if let Ok((h4, app2)) = h3.apply(app1, z) {
                    crate::heap::lemma_builds_trans(h, h3, h4, 3, 1);
                }
            }
        }
    }
}

impl Term {
    /// The Church numeral of `n`: `K I`, and `S (S (K S) K) m` for the number
    /// after `m`.
    pub open spec fn church(n: nat) -> Term
        decreases n,
    {
        if n == 0 {
            Term::no()
        } else {
            Term::app2(
                Term::Atom(S),
                Term::app2(Term::Atom(S), Term::app(Term::Atom(K), Term::Atom(S)), Term::Atom(K)),
                Term::church((n - 1) as nat),
            )
        }
    }
}

impl Term {
    /// The expression applies its first argument `n` times to its second,
    /// within `k` reductions.
    pub open spec fn counts(self, n: nat, k: nat) -> bool {
        Term::app2(self, Term::Atom(MARKER_SUCC), Term::Atom(MARKER_ZERO)).unfolds(n, k)
    }
}

/// Reduction does not change what an expression counts.
pub proof fn lemma_counts(t: Term, u: Term, n: nat, k: nat)
    requires
        t.counts(n, k),
        t.reduces(u),
    ensures
        u.counts(n, k),
{
    let f = Term::Atom(MARKER_SUCC);
    let x = Term::Atom(MARKER_ZERO);
    crate::term::lemma_reduces_refl(f);
    crate::term::lemma_reduces_refl(x);
    crate::term::lemma_reduces_app(t, f, u, f);
    crate::term::lemma_reduces_app(Term::app(t, f), x, Term::app(u, f), x);
    lemma_unfolds(Term::app2(t, f, x), Term::app2(u, f, x), n, k);
}

/// A Church numeral applies its first argument that often.
pub proof fn lemma_church_unfolds(n: nat)
    ensures
        Term::church(n).counts(n, 5 * n + 2),
    decreases n,
{
    let f = Term::Atom(MARKER_SUCC);
    let x = Term::Atom(MARKER_ZERO);
    let t0 = Term::app2(Term::church(n), f, x);
    reveal_with_fuel(Term::step, 4);
    reveal_with_fuel(Term::steps, 6);
    if n == 0 {
        let t1 = Term::app(Term::Atom(I), x);
        assert(t0.step() == Some(t1));
        assert(t1.step() == Some(x));
        assert(t0.reaches(2, x));
    } else {
        let c = Term::church((n - 1) as nat);
        let ks = Term::app(Term::Atom(K), Term::Atom(S));
        let cf = Term::app(c, f);
        let kf = Term::app(Term::Atom(K), f);
        let t1 = Term::app2(Term::app(Term::app2(Term::Atom(S), ks, Term::Atom(K)), f), cf, x);
        let t2 = Term::app2(Term::app(Term::app(ks, f), kf), cf, x);
        let t3 = Term::app2(Term::app(Term::Atom(S), kf), cf, x);
        let t4 = Term::app(Term::app(kf, x), Term::app(cf, x));
        let t5 = Term::app(f, Term::app(cf, x));
        assert(t0.step() == Some(t1));
        assert(t1.step() == Some(t2));
        assert(t2.step() == Some(t3));
        assert(t3.step() == Some(t4));
        assert(t4.step() == Some(t5));
        assert(t4.steps(1, t5));
        assert(t3.steps(2, t5));
        assert(t2.steps(3, t5));
        assert(t1.steps(4, t5));
        assert(t0.steps(5, t5));
        lemma_church_unfolds((n - 1) as nat);
        assert(t0.reaches(5, t5));
        assert((5 * n + 2 - 5) as nat == 5 * (n - 1) as nat + 2);
    }
}

/// Reading the Church numeral of a number gives the number.
pub proof fn lemma_church_round_trip(h: Heap, node: u32, fuel: nat, n: u64)
    requires
        h.wf(),
        h.live(node),
        Term::church(n as nat).reduces(h.term(node)),
        fuel > 5 * n + 2,
        h.room() >= 15 * n + 10,
    ensures
        h.decode_church_num(node, fuel) matches Ok((h1, r)) && r == Some(n) && h.leads_to(h1)
            && h1.room() + 15 * n + 10 >= h.room(),
{
    lemma_church_unfolds(n as nat);
    lemma_counts(Term::church(n as nat), h.term(node), n as nat, (5 * n + 2) as nat);
    lemma_decode_church_num(h, node, fuel, n, (5 * n + 2) as nat);
}

/// Reads a Church numeral: applies it to two markers and counts.
pub fn decode_church_num(arena: &mut Arena, node: u32, fuel: u64) -> (r: Result<
    Option<u64>,
    AllocError,
>)
    requires
        old(arena)@.wf(),
        old(arena)@.live(node),
    ensures
        Heap::ran(old(arena)@.decode_church_num(node, fuel as nat), final(arena)@, r),
        old(arena)@.leads_to(final(arena)@),
{
    let ghost goal = arena@.decode_church_num(node, fuel as nat);
    let f_marker: u32 = arena.allocate(MARKER_SUCC, NIL, NIL)?;
    let x_marker: u32 = arena.allocate(MARKER_ZERO, NIL, NIL)?;
    let app1: u32 = arena.allocate(APP, node, f_marker)?;
    let app2: u32 = arena.allocate(APP, app1, x_marker)?;
    let mut f: u64 = fuel;
    let mut cur: u32 = arena.eval(app2, &mut f)?;
    let mut count: u64 = 0;
    loop
        invariant
            arena@.wf(),
            arena@.live(cur),
            arena@.tag(cur) != IND,
            old(arena)@.leads_to(arena@),
            goal == old(arena)@.decode_church_num(node, fuel as nat),
            goal == arena@.church_count(cur, f as nat, count as nat),
        decreases f, arena@.term(cur),
    {
        if f == 0 {
            return Ok(None);
        }
        let n = arena.node(cur);
        if n.tag == MARKER_ZERO {
            return Ok(Some(count));
        }
        if n.tag != APP {
            return Ok(None);
        }
        let ghost h = arena@;
        proof {
            lemma_count(h, cur, f as nat);
            crate::select::lemma_eval(h, cur, f as nat);
        }
        let func: u32 = arena.follow(n.a);
        if arena.node(func).tag == MARKER_SUCC {
            if count == u64::MAX {
                return Ok(None);
            }
            count += 1;
            cur = arena.eval(n.b, &mut f)?;
        } else {
            let before: u64 = f;
            cur = arena.eval(cur, &mut f)?;
            if f == before {
                return Ok(None);
            }
        }
    }
}

} // verus!
