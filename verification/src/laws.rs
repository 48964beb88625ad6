//! What the encodings promise: reading back what was made gives the same
//! value.

use vstd::prelude::*;
use crate::heap::Heap;
use crate::node::{I, K, MARKER_F, MARKER_T, S};
use crate::term::Term;

verus! {

broadcast use crate::heap::group_leads;

impl Term {
    /// The marker that a boolean picks.
    pub open spec fn marker(b: bool) -> Term {
        Term::Atom(if b {
            MARKER_T
        } else {
            MARKER_F
        })
    }

    /// `t T F` with the markers.
    pub open spec fn ask(t: Term) -> Term {
        Term::app2(t, Term::Atom(MARKER_T), Term::Atom(MARKER_F))
    }

    /// `t K I`
    pub open spec fn fst(t: Term) -> Term {
        Term::app2(t, Term::Atom(K), Term::Atom(I))
    }

    /// `t (K I) I`
    pub open spec fn snd(t: Term) -> Term {
        Term::app2(t, Term::no(), Term::Atom(I))
    }
}

/// A boolean picks its argument after four reductions at most.
pub proof fn lemma_bool_reaches(b: bool) -> (k: nat)
    ensures
        k <= 4,
        Term::ask(Term::boolean(b)).reaches(k, Term::marker(b)),
{
    reveal_with_fuel(Term::step, 4);
    reveal_with_fuel(Term::steps, 5);
    let t = Term::Atom(MARKER_T);
    let f = Term::Atom(MARKER_F);
    let t0 = Term::ask(Term::boolean(b));
    if b {
        let kk = Term::app(Term::Atom(K), Term::Atom(K));
        let it = Term::app(Term::Atom(I), t);
        let t1 = Term::app2(Term::app(kk, t), it, f);
        let t2 = Term::app2(Term::Atom(K), it, f);
        assert(t0.step() == Some(t1));
        assert(t1.step() == Some(t2));
        assert(t2.step() == Some(it));
        assert(it.step() == Some(t));
        assert(it.steps(1, t));
        assert(t2.steps(2, t));
        assert(t1.steps(3, t));
        assert(t0.steps(4, t));
        4
    } else {
        let t1 = Term::app(Term::Atom(I), f);
        assert(t0.step() == Some(t1));
        assert(t1.step() == Some(f));
        assert(t1.steps(1, f));
        assert(t0.steps(2, f));
        2
    }
}

/// `S (K K) p x y` becomes `p x`.
proof fn lemma_delay(p: Term, x: Term, y: Term)
    ensures
        Term::app2(
            Term::app2(Term::Atom(S), Term::app(Term::Atom(K), Term::Atom(K)), p),
            x,
            y,
        ).steps(3, Term::app(p, x)),
{
    reveal_with_fuel(Term::step, 4);
    reveal_with_fuel(Term::steps, 4);
    let kk = Term::app(Term::Atom(K), Term::Atom(K));
    let px = Term::app(p, x);
    let t0 = Term::app2(Term::app2(Term::Atom(S), kk, p), x, y);
    let t1 = Term::app2(Term::app(kk, x), px, y);
    let t2 = Term::app2(Term::Atom(K), px, y);
    assert(t0.step() == Some(t1));
    assert(t1.step() == Some(t2));
    assert(t2.step() == Some(px));
}

/// A pair hands both parts to its argument.
proof fn lemma_hand(a: Term, b: Term, f: Term)
    ensures
        Term::app(Term::pair1(a, b), f).steps(
            3,
            Term::app2(
                f,
                Term::app2(Term::Atom(K), a, f),
                Term::app2(Term::Atom(K), b, f),
            ),
        ),
{
    reveal_with_fuel(Term::step, 4);
    reveal_with_fuel(Term::steps, 4);
    let ka = Term::app(Term::Atom(K), a);
    let kb = Term::app(Term::Atom(K), b);
    let si = Term::app(Term::Atom(S), Term::Atom(I));
    let t0 = Term::app(Term::pair1(a, b), f);
    let t1 = Term::app(Term::app2(si, ka, f), Term::app(kb, f));
    let t2 = Term::app(
        Term::app(Term::app(Term::Atom(I), f), Term::app(ka, f)),
        Term::app(kb, f),
    );
    let t3 = Term::app(Term::app(f, Term::app(ka, f)), Term::app(kb, f));
    assert(t0.step() == Some(t1));
    assert(t1.step() == Some(t2));
    assert(t2.step() == Some(t3));
}

/// A pair that takes one argument gives its first part to `K`.
pub proof fn lemma_pair1_fst_steps(a: Term, b: Term)
    ensures
        Term::app(Term::pair1(a, b), Term::Atom(K)).steps(5, a),
{
    let k = Term::Atom(K);
    lemma_hand(a, b, k);
    let t = Term::app2(k, Term::app2(k, a, k), Term::app2(k, b, k));
    assert(t.steps(2, a)) by {
        reveal_with_fuel(Term::steps, 3);
    }
    crate::term::lemma_steps_trans(Term::app(Term::pair1(a, b), k), t, a, 3, 2);
}

/// A pair that takes one argument gives its second part to `K I`.
pub proof fn lemma_pair1_snd_steps(a: Term, b: Term)
    ensures
        Term::app(Term::pair1(a, b), Term::no()).steps(6, b),
{
    let k = Term::Atom(K);
    let f = Term::no();
    lemma_hand(a, b, f);
    let x = Term::app2(k, a, f);
    let y = Term::app2(k, b, f);
    let t = Term::app2(f, x, y);
    let t1 = Term::app(Term::Atom(I), y);
    assert(t.steps(3, b)) by {
        reveal_with_fuel(Term::step, 3);
        reveal_with_fuel(Term::steps, 4);
        assert(t.step() == Some(t1));
        assert(t1.step() == Some(y));
        assert(y.step() == Some(b));
    }
    crate::term::lemma_steps_trans(Term::app(Term::pair1(a, b), f), t, b, 3, 3);
}

/// A pair gives its first part to `K`.
pub proof fn lemma_pair_fst_steps(a: Term, b: Term)
    ensures
        Term::fst(Term::pair(a, b)).steps(8, a),
{
    lemma_delay(Term::pair1(a, b), Term::Atom(K), Term::Atom(I));
    lemma_pair1_fst_steps(a, b);
    crate::term::lemma_steps_trans(
        Term::fst(Term::pair(a, b)),
        Term::app(Term::pair1(a, b), Term::Atom(K)),
        a,
        3,
        5,
    );
}

/// A pair gives its second part to `K I`.
pub proof fn lemma_pair_snd_steps(a: Term, b: Term)
    ensures
        Term::snd(Term::pair(a, b)).steps(9, b),
{
    lemma_delay(Term::pair1(a, b), Term::no(), Term::Atom(I));
    lemma_pair1_snd_steps(a, b);
    crate::term::lemma_steps_trans(
        Term::snd(Term::pair(a, b)),
        Term::app(Term::pair1(a, b), Term::no()),
        b,
        3,
        6,
    );
}

/// A pair that is asked like a boolean gives an application, and no marker.
pub proof fn lemma_pair_ask(a: Term, b: Term) -> (w: Term)
    ensures
        Term::ask(Term::pair(a, b)).reaches(6, w),
        w.is_app(),
{
    let t = Term::Atom(MARKER_T);
    let f = Term::Atom(MARKER_F);
    lemma_delay(Term::pair1(a, b), t, f);
    lemma_hand(a, b, t);
    let w = Term::app2(t, Term::app2(Term::Atom(K), a, t), Term::app2(Term::Atom(K), b, t));
    crate::term::lemma_steps_trans(
        Term::ask(Term::pair(a, b)),
        Term::app(Term::pair1(a, b), t),
        w,
        3,
        3,
    );
    reveal_with_fuel(Term::step, 4);
    w
}

/// A pair that takes one argument, asked like a boolean, gives an application
/// too.
pub proof fn lemma_pair1_ask(a: Term, b: Term) -> (w: Term)
    ensures
        Term::ask(Term::pair1(a, b)).reaches(3, w),
        w.is_app(),
{
    let t = Term::Atom(MARKER_T);
    let f = Term::Atom(MARKER_F);
    lemma_hand(a, b, t);
    let v = Term::app2(t, Term::app2(Term::Atom(K), a, t), Term::app2(Term::Atom(K), b, t));
    crate::term::lemma_steps_app(Term::app(Term::pair1(a, b), t), v, f, 3);
    reveal_with_fuel(Term::step, 5);
    Term::app(v, f)
}

/// Asking a node that stands for a reduct of `t` gives what asking `t` gives.
pub proof fn lemma_ask(h: Heap, node: u32, fuel: nat, t: Term, k: nat, w: Term)
    requires
        h.wf(),
        h.live(node),
        t.reduces(h.term(node)),
        Term::ask(t).reaches(k, w),
        fuel > k,
        h.room() >= 4 + 3 * k,
    ensures
        h.decode_bool(node, fuel) matches Ok((h1, b)) && h.leads_to(h1) && h1.room() + 4 + 3 * k
            >= h.room() && (!w.is_app() ==> b == Heap::marker_value(w->Atom_0)) && (w.is_app()
            ==> b is None),
{
    reveal(Heap::decode_bool);
    crate::select::lemma_apply_markers(h, node);
    let (h1, app2) = h.apply_markers(node)->Ok_0;
    let mt = Term::Atom(MARKER_T);
    let mf = Term::Atom(MARKER_F);
    crate::term::lemma_reduces_refl(mt);
    crate::term::lemma_reduces_refl(mf);
    crate::term::lemma_reduces_app(t, mt, h.term(node), mt);
    crate::term::lemma_reduces_app(Term::app(t, mt), mf, Term::app(h.term(node), mt), mf);
    let (k1, w1) = crate::term::lemma_reduces_reaches(Term::ask(t), h1.term(app2), k, w);
    crate::machine::lemma_whnf_reaches(h1, app2, fuel, k1, w1);
    crate::machine::lemma_whnf(h1, app2, fuel);
    let (h2, (r, f)) = h1.whnf(app2, fuel)->Ok_0;
    crate::term::lemma_reduces_trans(w, w1, h2.term(r));
    crate::term::lemma_reduces_normal(w, h2.term(r));
    assert(h2.follow(r) == r);
}

/// Reading a boolean that was made gives it back: with five units of fuel and
/// room for sixteen nodes.
pub proof fn lemma_decode_bool_law(h: Heap, node: u32, fuel: nat, b: bool)
    requires
        h.wf(),
        h.live(node),
        Term::boolean(b).reduces(h.term(node)),
        fuel > 4,
        h.room() >= 16,
    ensures
        h.decode_bool(node, fuel) matches Ok((h1, r)) && r == Some(b) && h.leads_to(h1)
            && h1.room() + 16 >= h.room(),
{
    let k = lemma_bool_reaches(b);
    lemma_ask(h, node, fuel, Term::boolean(b), k, Term::marker(b));
}

/// What is read as a boolean picks the marker of that boolean, if the reading
/// did not end for lack of fuel.
pub proof fn lemma_decode_bool_sound(h: Heap, node: u32, fuel: nat)
    requires
        h.wf(),
        h.live(node),
    ensures
        h.apply_markers(node) matches Ok((h1, app)) ==> (h1.whnf(app, fuel) matches Ok(
            (h2, (r, f)),
        ) ==> (f > 0 ==> match h.decode_bool(node, fuel) {
            Ok((_, Some(b))) => Term::ask(h.term(node)).reduces(Term::marker(b)),
            Ok((_, None)) => Term::ask(h.term(node)).reduces(h2.term(r)) && h2.term(r).step() is None
                && h2.term(r) != Term::marker(true) && h2.term(r) != Term::marker(false),
            Err(_) => false,
        })),
{
    reveal(Heap::decode_bool);
    crate::select::lemma_apply_markers(h, node);
    if let Ok((h1, app)) = h.apply_markers(node) {
        crate::machine::lemma_whnf(h1, app, fuel);
        if let Ok((h2, (r, f))) = h1.whnf(app, fuel) {
            assert(h2.follow(r) == r);
            assert(h2.graph.live(r));
        }
    }
}

/// A pair is no boolean.
pub proof fn lemma_decode_bool_pair(h: Heap, node: u32, fuel: nat, x: Term, y: Term)
    requires
        h.wf(),
        h.live(node),
        Term::pair(x, y).reduces(h.term(node)),
        fuel > 6,
        h.room() >= 22,
    ensures
        h.decode_bool(node, fuel) matches Ok((h1, r)) && r is None && h.leads_to(h1) && h1.room()
            + 22 >= h.room(),
{
    let w = lemma_pair_ask(x, y);
    lemma_ask(h, node, fuel, Term::pair(x, y), 6, w);
}

/// The first part of a pair is the first part: its weak head normal form `w`
/// comes out, if it has one.
pub proof fn lemma_pair_fst_law(h: Heap, node: u32, fuel: nat, a: Term, b: Term, k: nat, w: Term)
    requires
        h.wf(),
        h.live(node),
        Term::pair(a, b).reduces(h.term(node)),
        a.reaches(k, w),
        fuel > 8 + k,
        h.room() >= 28 + 3 * k,
    ensures
        h.pair_fst(node, fuel) matches Ok((h1, (r, f))) && h.leads_to(h1) && h1.live(r) && f + 8
            + k >= fuel && h1.room() + 28 + 3 * k >= h.room() && w.reduces(h1.term(r)),
{
    reveal(Heap::pair_fst);
    crate::select::lemma_apply_fst(h, node);
    let (h1, app2) = h.apply_fst(node)->Ok_0;
    let t = Term::pair(a, b);
    let x = Term::Atom(K);
    let y = Term::Atom(I);
    crate::term::lemma_reduces_refl(x);
    crate::term::lemma_reduces_refl(y);
    crate::term::lemma_reduces_app(t, x, h.term(node), x);
    crate::term::lemma_reduces_app(Term::app(t, x), y, Term::app(h.term(node), x), y);
    lemma_pair_fst_steps(a, b);
    crate::term::lemma_steps_trans(Term::fst(t), a, w, 8, k);
    let (k1, w1) = crate::term::lemma_reduces_reaches(Term::fst(t), h1.term(app2), 8 + k, w);
    crate::select::lemma_eval_reaches(h1, app2, fuel, k1, w1);
    crate::select::lemma_eval(h1, app2, fuel);
    let (h2, (r, f)) = h1.eval(app2, fuel)->Ok_0;
    crate::term::lemma_reduces_trans(w, w1, h2.term(r));
}

/// The second part of a pair is the second part: its weak head normal form
/// `w` comes out, if it has one.
pub proof fn lemma_pair_snd_law(h: Heap, node: u32, fuel: nat, a: Term, b: Term, k: nat, w: Term)
    requires
        h.wf(),
        h.live(node),
        Term::pair(a, b).reduces(h.term(node)),
        b.reaches(k, w),
        fuel > 9 + k,
        h.room() >= 32 + 3 * k,
    ensures
        h.pair_snd(node, fuel) matches Ok((h1, (r, f))) && h.leads_to(h1) && h1.live(r) && f + 9
            + k >= fuel && h1.room() + 32 + 3 * k >= h.room() && w.reduces(h1.term(r)),
{
    reveal(Heap::pair_snd);
    crate::select::lemma_apply_snd(h, node);
    let (h1, app2) = h.apply_snd(node)->Ok_0;
    let t = Term::pair(a, b);
    let x = Term::no();
    let y = Term::Atom(I);
    crate::term::lemma_reduces_refl(x);
    crate::term::lemma_reduces_refl(y);
    crate::term::lemma_reduces_app(t, x, h.term(node), x);
    crate::term::lemma_reduces_app(Term::app(t, x), y, Term::app(h.term(node), x), y);
    lemma_pair_snd_steps(a, b);
    crate::term::lemma_steps_trans(Term::snd(t), b, w, 9, k);
    let (k1, w1) = crate::term::lemma_reduces_reaches(Term::snd(t), h1.term(app2), 9 + k, w);
    crate::select::lemma_eval_reaches(h1, app2, fuel, k1, w1);
    crate::select::lemma_eval(h1, app2, fuel);
    let (h2, (r, f)) = h1.eval(app2, fuel)->Ok_0;
    crate::term::lemma_reduces_trans(w, w1, h2.term(r));
}

/// The first part of a pair that takes one argument: its weak head normal
/// form `w` comes out, if it has one.
pub proof fn lemma_pair1_fst_law(h: Heap, node: u32, fuel: nat, a: Term, b: Term, k: nat, w: Term)
    requires
        h.wf(),
        h.live(node),
        Term::pair1(a, b).reduces(h.term(node)),
        a.reaches(k, w),
        fuel > 5 + k,
        h.room() >= 17 + 3 * k,
    ensures
        h.pair1_fst(node, fuel) matches Ok((h1, (r, f))) && h.leads_to(h1) && h1.live(r) && f + 5
            + k >= fuel && h1.room() + 17 + 3 * k >= h.room() && w.reduces(h1.term(r)),
{
    reveal(Heap::pair1_fst);
    crate::intern::lemma_intern_k(h);
    let (h0, x) = h.intern_k()->Ok_0;
    assert(h0.live(node));
    crate::select::lemma_apply(h0, node, x);
    let (h1, app) = h0.apply(node, x)->Ok_0;
    let t = Term::app(Term::pair1(a, b), Term::Atom(K));
    crate::term::lemma_reduces_refl(Term::Atom(K));
    crate::term::lemma_reduces_app(Term::pair1(a, b), Term::Atom(K), h.term(node), Term::Atom(K));
    lemma_pair1_fst_steps(a, b);
    crate::term::lemma_steps_trans(t, a, w, 5, k);
    let (k1, w1) = crate::term::lemma_reduces_reaches(t, h1.term(app), 5 + k, w);
    crate::select::lemma_eval_reaches(h1, app, fuel, k1, w1);
    crate::select::lemma_eval(h1, app, fuel);
    let (h2, (r, f)) = h1.eval(app, fuel)->Ok_0;
    crate::term::lemma_reduces_trans(w, w1, h2.term(r));
}

/// The second part of a pair that takes one argument: its weak head normal
/// form `w` comes out, if it has one.
pub proof fn lemma_pair1_snd_law(h: Heap, node: u32, fuel: nat, a: Term, b: Term, k: nat, w: Term)
    requires
        h.wf(),
        h.live(node),
        Term::pair1(a, b).reduces(h.term(node)),
        b.reaches(k, w),
        fuel > 6 + k,
        h.room() >= 21 + 3 * k,
    ensures
        h.pair1_snd(node, fuel) matches Ok((h1, (r, f))) && h.leads_to(h1) && h1.live(r) && f + 6
            + k >= fuel && h1.room() + 21 + 3 * k >= h.room() && w.reduces(h1.term(r)),
{
    reveal(Heap::pair1_snd);
    crate::intern::lemma_intern_ki(h);
    let (h0, x) = h.intern_ki()->Ok_0;
    assert(h0.live(node));
    crate::select::lemma_apply(h0, node, x);
    let (h1, app) = h0.apply(node, x)->Ok_0;
    let t = Term::app(Term::pair1(a, b), Term::no());
    crate::term::lemma_reduces_refl(Term::no());
    crate::term::lemma_reduces_app(Term::pair1(a, b), Term::no(), h.term(node), Term::no());
    lemma_pair1_snd_steps(a, b);
    crate::term::lemma_steps_trans(t, b, w, 6, k);
    let (k1, w1) = crate::term::lemma_reduces_reaches(t, h1.term(app), 6 + k, w);
    crate::select::lemma_eval_reaches(h1, app, fuel, k1, w1);
    crate::select::lemma_eval(h1, app, fuel);
    let (h2, (r, f)) = h1.eval(app, fuel)->Ok_0;
    crate::term::lemma_reduces_trans(w, w1, h2.term(r));
}

/// Booleans and pairs are weak head normal forms.
pub proof fn lemma_values_normal(b: bool, x: Term, y: Term)
    ensures
        Term::boolean(b).reaches(0, Term::boolean(b)),
        Term::pair(x, y).reaches(0, Term::pair(x, y)),
{
    reveal_with_fuel(Term::step, 4);
}

/// The binary digits of a number, the lowest first.
pub open spec fn digits(n: nat) -> Seq<bool>
    decreases n,
{
    if n == 0 {
        Seq::empty()
    } else {
        seq![n % 2 == 1] + digits(n / 2)
    }
}

/// The digits of a number are the number.
pub proof fn lemma_digits(n: nat)
    ensures
        crate::decode::value(digits(n)) == n,
        digits(n).len() == crate::encode::bit_length(n),
    decreases n,
{
    if n > 0 {
        lemma_digits(n / 2);
        assert(digits(n).skip(1) =~= digits(n / 2));
    }
}

/// What reduces to a node keeps doing so while the arena is worked on.
pub proof fn lemma_still(h: Heap, h1: Heap, node: u32, t: Term)
    requires
        h.leads_to(h1),
        h.live(node),
        t.reduces(h.term(node)),
    ensures
        h1.live(node),
        t.reduces(h1.term(node)),
{
    crate::heap::lemma_leads_node(h, h1, node);
    crate::term::lemma_reduces_trans(t, h.term(node), h1.term(node));
}

/// Reading the digits of a number gives them.
proof fn lemma_scott_bits(
    h: Heap,
    cur: u32,
    left: nat,
    remaining: nat,
    op: nat,
    bits: Seq<bool>,
    n: nat,
)
    requires
        h.wf(),
        h.live(cur),
        Term::number(n).reduces(h.term(cur)),
        op >= 10,
        crate::encode::bit_length(n) <= left,
        n > 0 ==> remaining >= 4 * op + 17 * (crate::encode::bit_length(n) - 1),
        h.room() >= 98 * (crate::encode::bit_length(n) + 1),
    ensures
        h.scott_bits(cur, left, remaining, op, bits) matches Ok((h1, r)) && r == bits + digits(n)
            && h.leads_to(h1) && h1.room() + 98 * (crate::encode::bit_length(n) + 1) >= h.room(),
    decreases n,
{
    if left == 0 || remaining < op * 4 {
        crate::heap::lemma_leads_refl(h);
        assert(bits + digits(n) =~= bits);
    } else {
        let b = n % 2 == 1;
        let rest = if n == 0 {
            Term::no()
        } else {
            Term::number(n / 2)
        };
        assert(Term::number(n) == Term::pair(Term::boolean(b), rest));
        lemma_values_normal(b, Term::no(), Term::no());
        lemma_pair_fst_law(h, cur, op, Term::boolean(b), rest, 0, Term::boolean(b));
        let (h1, (first, f1)) = h.pair_fst(cur, op)->Ok_0;
        lemma_still(h, h1, cur, Term::number(n));
        lemma_decode_bool_law(h1, first, op, b);
        let (h2, _) = h1.decode_bool(first, op)->Ok_0;
        lemma_still(h1, h2, cur, Term::number(n));
        assert(rest.reaches(0, rest)) by {
            if n == 0 {
                lemma_values_normal(false, rest, rest);
            } else if n / 2 == 0 {
                lemma_values_normal(false, Term::no(), Term::no());
            } else {
                lemma_values_normal(
                    false,
                    Term::boolean((n / 2) % 2 == 1),
                    Term::number(n / 2 / 2),
                );
            }
        }
        lemma_pair_snd_law(h2, cur, op, Term::boolean(b), rest, 0, rest);
        let (h3, (second, f2)) = h2.pair_snd(cur, op)->Ok_0;
        let rem1 = crate::decode::minus(remaining, crate::decode::minus(op, f1));
        let rem2 = crate::decode::minus(rem1, crate::decode::minus(op, f2));
        if n == 0 {
            lemma_decode_bool_law(h3, second, op, false);
            assert(bits + digits(n) =~= bits);
        } else {
            assert(bits.push(b) + digits(n / 2) =~= bits + digits(n));
            if b {
                lemma_scott_bits(h3, second, (left - 1) as nat, rem2, op, bits.push(b), n / 2);
            } else {
                let m = n / 2;
                lemma_decode_bool_pair(
                    h3,
                    second,
                    op,
                    Term::boolean(m % 2 == 1),
                    Term::number(m / 2),
                );
                let (h4, _) = h3.decode_bool(second, op)->Ok_0;
                lemma_still(h3, h4, second, rest);
                lemma_scott_bits(h4, second, (left - 1) as nat, rem2, op, bits.push(b), m);
            }
        }
    }
}

/// A word has 64 binary digits at most.
pub proof fn lemma_bit_length(n: nat, k: nat)
    requires
        n < vstd::arithmetic::power2::pow2(k),
    ensures
        crate::encode::bit_length(n) <= k,
    decreases k,
{
    if n > 0 {
        vstd::arithmetic::power2::lemma2_to64();
        if k > 0 {
            vstd::arithmetic::power2::lemma_pow2_unfold(k);
            lemma_bit_length(n / 2, (k - 1) as nat);
        }
    }
}

/// Reading a number that was made gives it back. Zero needs no fuel; the
/// others need 40000 units and 17 for each digit but one.
pub proof fn lemma_decode_scott_num_law(h: Heap, node: u32, fuel: nat, n: u64)
    requires
        h.wf(),
        h.live(node),
        Term::number(n as nat).reduces(h.term(node)),
        n > 0 ==> fuel >= 40_000 + 17 * (crate::encode::bit_length(n as nat) - 1),
        h.room() >= 98 * (crate::encode::bit_length(n as nat) + 2),
    ensures
        h.decode_scott_num(node, fuel) matches Ok((h1, r)) && r == Some(n) && h.leads_to(h1)
            && h1.room() + 98 * (crate::encode::bit_length(n as nat) + 2) >= h.room(),
{
    reveal(Heap::decode_scott_num);
    let op = crate::decode::step_fuel(fuel, 200, 10_000);
    vstd::arithmetic::power2::lemma2_to64();
    lemma_bit_length(n as nat, 64);
    lemma_scott_bits(h, node, 64, fuel, op, Seq::empty(), n as nat);
    let (h1, bits) = h.scott_bits(node, 64, fuel, op, Seq::empty())->Ok_0;
    lemma_digits(n as nat);
    assert(bits =~= digits(n as nat));
    if n == 0 {
        lemma_still(h, h1, node, Term::number(0));
        lemma_values_normal(false, Term::no(), Term::no());
        lemma_pair_fst_law(h1, node, op, Term::no(), Term::no(), 0, Term::no());
        let (h2, (fst, _)) = h1.pair_fst(node, op)->Ok_0;
        lemma_decode_bool_law(h2, fst, op, false);
    }
}

/// Making a boolean and reading it gives it back.
pub proof fn lemma_bool_round_trip(h: Heap, fuel: nat, b: bool)
    requires
        h.wf(),
        fuel > 4,
        h.room() >= 23,
    ensures
        h.build(crate::encode::Recipe::boolean(b)) matches Ok((h1, node)) && (h1.decode_bool(
            node,
            fuel,
        ) matches Ok((h2, r)) && r == Some(b)),
{
    crate::encode::lemma_make_bool(h, b);
    let (h1, node) = h.build(crate::encode::Recipe::boolean(b))->Ok_0;
    crate::term::lemma_reduces_refl(h1.term(node));
    lemma_decode_bool_law(h1, node, fuel, b);
}

/// Making a pair and taking its parts gives nodes for what it was made of, if
/// those are weak head normal forms.
pub proof fn lemma_pair_round_trip(h: Heap, a: u32, b: u32, fuel: nat)
    requires
        h.wf(),
        h.live(a),
        h.live(b),
        h.term(a).step() is None,
        h.term(b).step() is None,
        fuel > 9,
        h.room() >= 49,
    ensures
        h.build(crate::encode::Recipe::pair(a, b)) matches Ok((h1, p)) && (h1.pair_fst(
            p,
            fuel,
        ) matches Ok((h2, (x, _))) && h.term(a).reduces(h2.term(x))) && (h1.pair_snd(
            p,
            fuel,
        ) matches Ok((h3, (y, _))) && h.term(b).reduces(h3.term(y))),
{
    crate::encode::lemma_make_pair(h, a, b);
    let (h1, p) = h.build(crate::encode::Recipe::pair(a, b))->Ok_0;
    let (s, t) = (h.term(a), h.term(b));
    crate::term::lemma_reduces_refl(h1.term(p));
    lemma_pair_fst_law(h1, p, fuel, s, t, 0, s);
    lemma_pair_snd_law(h1, p, fuel, s, t, 0, t);
}

/// Making a number and reading it gives it back.
pub proof fn lemma_number_round_trip(h: Heap, fuel: nat, n: u64)
    requires
        h.wf(),
        n > 0 ==> fuel >= 40_000 + 17 * (crate::encode::bit_length(n as nat) - 1),
        h.room() >= 122 * (crate::encode::bit_length(n as nat) + 2),
    ensures
        h.make_scott_num(n as nat) matches Ok((h1, node)) && (h1.decode_scott_num(
            node,
            fuel,
        ) matches Ok((h2, r)) && r == Some(n)),
{
    crate::encode::lemma_make_scott_num(h, n as nat);
    let (h1, node) = h.make_scott_num(n as nat)->Ok_0;
    crate::term::lemma_reduces_refl(h1.term(node));
    lemma_decode_scott_num_law(h1, node, fuel, n);
}

} // verus!
