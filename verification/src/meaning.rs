//! What expressions mean, and that reading them gives it: however an
//! expression computes its value, if asking it for its parts leads to the
//! value, then reading it gives the value.

use vstd::prelude::*;
use crate::heap::Heap;
use crate::integer::char_for;
use crate::node::{I, K, MARKER_F, MARKER_T};
use crate::term::Term;

verus! {

broadcast use crate::heap::group_leads;

impl Term {
    /// The expression picks the marker of `v`, within `b` reductions.
    pub open spec fn says(self, v: bool, b: nat) -> bool {
        exists|k: nat| k <= b && #[trigger] Term::ask(self).reaches(k, Term::marker(v))
    }

    /// The expression is not false: it picks something else than the marker of
    /// false, within `b` reductions.
    pub open spec fn is_not_false(self, b: nat) -> bool {
        exists|k: nat, w: Term|
            k <= b && #[trigger] Term::ask(self).reaches(k, w) && w != Term::marker(false)
    }

    /// The expression is no boolean: it picks neither marker, within `b`
    /// reductions.
    pub open spec fn is_no_bool(self, b: nat) -> bool {
        exists|k: nat, w: Term|
            k <= b && #[trigger] Term::ask(self).reaches(k, w) && w != Term::marker(false) && w
                != Term::marker(true)
    }

    /// As a pair that takes one argument the expression has the parts `x` and
    /// `y`, each within `b` reductions.
    pub open spec fn has_parts1(self, x: Term, y: Term, b: nat) -> bool {
        &&& exists|k: nat| k <= b && #[trigger] Term::app(self, Term::Atom(K)).reaches(k, x)
        &&& exists|k: nat| k <= b && #[trigger] Term::app(self, Term::no()).reaches(k, y)
    }

    /// As a pair the expression has the parts `x` and `y`, each within `b`
    /// reductions.
    pub open spec fn has_parts(self, x: Term, y: Term, b: nat) -> bool {
        &&& exists|k: nat| k <= b && #[trigger] Term::fst(self).reaches(k, x)
        &&& exists|k: nat| k <= b && #[trigger] Term::snd(self).reaches(k, y)
    }

    /// The expression is the binary number `n`: its first part is the lowest
    /// digit, and its second part the other digits. Zero ends with false.
    pub open spec fn denotes(self, n: nat, b: nat) -> bool
        decreases n,
    {
        exists|x: Term, y: Term| #[trigger]
            self.has_parts(x, y, b) && x.says(n % 2 == 1, b) && if n == 0 {
                y.says(false, b)
            } else {
                y.denotes(n / 2, b) && (n % 2 == 0 ==> y.is_not_false(b))
            }
    }

    /// The expression is a list of the binary numbers `ns`: false if there are
    /// none, and otherwise not false, with the first one and the list of the
    /// others as its parts.
    pub open spec fn lists(self, ns: Seq<u64>, b: nat) -> bool
        decreases ns.len(),
    {
        if ns.len() == 0 {
            self.says(false, b)
        } else {
            self.is_not_false(b) && exists|x: Term, y: Term| #[trigger]
                self.has_parts(x, y, b) && x.denotes(ns[0] as nat, b) && y.lists(ns.skip(1), b)
        }
    }

    /// The expression is a list of the booleans `bs`: false if there are none,
    /// and otherwise not false, with the first one and the list of the others
    /// as its parts.
    pub open spec fn lists_bools(self, bs: Seq<bool>, b: nat) -> bool
        decreases bs.len(),
    {
        if bs.len() == 0 {
            self.says(false, b)
        } else {
            self.is_not_false(b) && exists|x: Term, y: Term| #[trigger]
                self.has_parts(x, y, b) && x.says(bs[0], b) && y.lists_bools(bs.skip(1), b)
        }
    }
}

/// Reduction of an expression reduces what it is asked.
pub proof fn lemma_ask_reduces(t: Term, u: Term)
    requires
        t.reduces(u),
    ensures
        Term::ask(t).reduces(Term::ask(u)),
        Term::fst(t).reduces(Term::fst(u)),
        Term::snd(t).reduces(Term::snd(u)),
{
    let (mt, mf) = (Term::Atom(MARKER_T), Term::Atom(MARKER_F));
    let (k, i, ki) = (Term::Atom(K), Term::Atom(I), Term::no());
    crate::term::lemma_reduces_refl(mt);
    crate::term::lemma_reduces_refl(mf);
    crate::term::lemma_reduces_refl(k);
    crate::term::lemma_reduces_refl(i);
    crate::term::lemma_reduces_refl(ki);
    crate::term::lemma_reduces_app(t, mt, u, mt);
    crate::term::lemma_reduces_app(Term::app(t, mt), mf, Term::app(u, mt), mf);
    crate::term::lemma_reduces_app(t, k, u, k);
    crate::term::lemma_reduces_app(Term::app(t, k), i, Term::app(u, k), i);
    crate::term::lemma_reduces_app(t, ki, u, ki);
    crate::term::lemma_reduces_app(Term::app(t, ki), i, Term::app(u, ki), i);
}

/// Reduction does not change which marker an expression picks.
pub proof fn lemma_says(t: Term, u: Term, v: bool, b: nat)
    requires
        t.says(v, b),
        t.reduces(u),
    ensures
        u.says(v, b),
{
    let k = choose|k: nat| k <= b && #[trigger] Term::ask(t).reaches(k, Term::marker(v));
    lemma_ask_reduces(t, u);
    let (k1, w1) = crate::term::lemma_reduces_reaches(
        Term::ask(t),
        Term::ask(u),
        k,
        Term::marker(v),
    );
    crate::term::lemma_reduces_normal(Term::marker(v), w1);
}

/// Reduction does not make an expression false.
pub proof fn lemma_is_not_false(t: Term, u: Term, b: nat)
    requires
        t.is_not_false(b),
        t.reduces(u),
    ensures
        u.is_not_false(b),
{
    let (k, w) = choose|k: nat, w: Term|
        k <= b && #[trigger] Term::ask(t).reaches(k, w) && w != Term::marker(false);
    lemma_ask_reduces(t, u);
    let (k1, w1) = crate::term::lemma_reduces_reaches(Term::ask(t), Term::ask(u), k, w);
    crate::term::lemma_reduces_normal(w, w1);
    assert(Term::ask(u).reaches(k1, w1));
}

/// Reduction does not make a boolean of what is none.
pub proof fn lemma_is_no_bool(t: Term, u: Term, b: nat)
    requires
        t.is_no_bool(b),
        t.reduces(u),
    ensures
        u.is_no_bool(b),
{
    let (k, w) = choose|k: nat, w: Term|
        k <= b && #[trigger] Term::ask(t).reaches(k, w) && w != Term::marker(false) && w
            != Term::marker(true);
    lemma_ask_reduces(t, u);
    let (k1, w1) = crate::term::lemma_reduces_reaches(Term::ask(t), Term::ask(u), k, w);
    crate::term::lemma_reduces_normal(w, w1);
    assert(Term::ask(u).reaches(k1, w1));
}

/// Reduction reduces the parts of an expression.
pub proof fn lemma_has_parts(t: Term, u: Term, x: Term, y: Term, b: nat) -> (r: (Term, Term))
    requires
        t.has_parts(x, y, b),
        t.reduces(u),
    ensures
        u.has_parts(r.0, r.1, b),
        x.reduces(r.0),
        y.reduces(r.1),
{
    let j = choose|k: nat| k <= b && #[trigger] Term::fst(t).reaches(k, x);
    let k = choose|k: nat| k <= b && #[trigger] Term::snd(t).reaches(k, y);
    lemma_ask_reduces(t, u);
    let (j1, x1) = crate::term::lemma_reduces_reaches(Term::fst(t), Term::fst(u), j, x);
    let (k1, y1) = crate::term::lemma_reduces_reaches(Term::snd(t), Term::snd(u), k, y);
    (x1, y1)
}

/// The parts of a number.
proof fn lemma_number_parts(t: Term, n: nat, b: nat) -> (r: (Term, Term))
    requires
        t.denotes(n, b),
    ensures
        t.has_parts(r.0, r.1, b),
        r.0.says(n % 2 == 1, b),
        n == 0 ==> r.1.says(false, b),
        n > 0 ==> r.1.denotes(n / 2, b) && (n % 2 == 0 ==> r.1.is_not_false(b)),
{
    choose|x: Term, y: Term| #[trigger]
        t.has_parts(x, y, b) && x.says(n % 2 == 1, b) && if n == 0 {
            y.says(false, b)
        } else {
            y.denotes(n / 2, b) && (n % 2 == 0 ==> y.is_not_false(b))
        }
}

/// Reduction does not change the number that an expression is.
pub proof fn lemma_denotes(t: Term, u: Term, n: nat, b: nat)
    requires
        t.denotes(n, b),
        t.reduces(u),
    ensures
        u.denotes(n, b),
    decreases n,
{
    let (x, y) = lemma_number_parts(t, n, b);
    let (x1, y1) = lemma_has_parts(t, u, x, y, b);
    lemma_says(x, x1, n % 2 == 1, b);
    if n == 0 {
        lemma_says(y, y1, false, b);
    } else {
        lemma_denotes(y, y1, n / 2, b);
        if n % 2 == 0 {
            lemma_is_not_false(y, y1, b);
        }
    }
    assert(u.has_parts(x1, y1, b));
}

/// Reduction does not change the list that an expression is.
pub proof fn lemma_lists(t: Term, u: Term, ns: Seq<u64>, b: nat)
    requires
        t.lists(ns, b),
        t.reduces(u),
    ensures
        u.lists(ns, b),
    decreases ns.len(),
{
    if ns.len() == 0 {
        lemma_says(t, u, false, b);
    } else {
        let (x, y) = lemma_list_parts(t, ns, b);
        let (x1, y1) = lemma_has_parts(t, u, x, y, b);
        lemma_is_not_false(t, u, b);
        lemma_denotes(x, x1, ns[0] as nat, b);
        lemma_lists(y, y1, ns.skip(1), b);
        assert(u.has_parts(x1, y1, b));
    }
}

/// Reduction does not change the list of booleans that an expression is.
pub proof fn lemma_lists_bools(t: Term, u: Term, bs: Seq<bool>, b: nat)
    requires
        t.lists_bools(bs, b),
        t.reduces(u),
    ensures
        u.lists_bools(bs, b),
    decreases bs.len(),
{
    if bs.len() == 0 {
        lemma_says(t, u, false, b);
    } else {
        let (x, y) = lemma_bools_parts(t, bs, b);
        let (x1, y1) = lemma_has_parts(t, u, x, y, b);
        lemma_is_not_false(t, u, b);
        lemma_says(x, x1, bs[0], b);
        lemma_lists_bools(y, y1, bs.skip(1), b);
        assert(u.has_parts(x1, y1, b));
    }
}

/// The parts of a list of booleans.
pub proof fn lemma_bools_parts(t: Term, bs: Seq<bool>, b: nat) -> (r: (Term, Term))
    requires
        t.lists_bools(bs, b),
        bs.len() > 0,
    ensures
        t.has_parts(r.0, r.1, b),
        r.0.says(bs[0], b),
        r.1.lists_bools(bs.skip(1), b),
{
    choose|x: Term, y: Term| #[trigger]
        t.has_parts(x, y, b) && x.says(bs[0], b) && y.lists_bools(bs.skip(1), b)
}

/// The parts of a list.
pub proof fn lemma_list_parts(t: Term, ns: Seq<u64>, b: nat) -> (r: (Term, Term))
    requires
        t.lists(ns, b),
        ns.len() > 0,
    ensures
        t.has_parts(r.0, r.1, b),
        r.0.denotes(ns[0] as nat, b),
        r.1.lists(ns.skip(1), b),
{
    choose|x: Term, y: Term| #[trigger]
        t.has_parts(x, y, b) && x.denotes(ns[0] as nat, b) && y.lists(ns.skip(1), b)
}

/// Reading a boolean gives the one that the expression is.
pub proof fn lemma_read_bool(h: Heap, node: u32, fuel: nat, t: Term, v: bool, b: nat)
    requires
        h.wf(),
        h.live(node),
        t.reduces(h.term(node)),
        t.says(v, b),
        fuel > b,
        h.room() >= 4 + 3 * b,
    ensures
        h.decode_bool(node, fuel) matches Ok((h1, r)) && r == Some(v) && h.leads_to(h1)
            && h1.room() + 4 + 3 * b >= h.room(),
{
    let k = choose|k: nat| k <= b && #[trigger] Term::ask(t).reaches(k, Term::marker(v));
    crate::laws::lemma_ask(h, node, fuel, t, k, Term::marker(v));
}

/// What is not false is not read as false.
pub proof fn lemma_read_not_false(h: Heap, node: u32, fuel: nat, t: Term, b: nat)
    requires
        h.wf(),
        h.live(node),
        t.reduces(h.term(node)),
        t.is_not_false(b),
        fuel > b,
        h.room() >= 4 + 3 * b,
    ensures
        h.decode_bool(node, fuel) matches Ok((h1, r)) && r != Some(false) && h.leads_to(h1)
            && h1.room() + 4 + 3 * b >= h.room(),
{
    let (k, w) = choose|k: nat, w: Term|
        k <= b && #[trigger] Term::ask(t).reaches(k, w) && w != Term::marker(false);
    crate::laws::lemma_ask(h, node, fuel, t, k, w);
}

/// What is no boolean is not read as one.
pub proof fn lemma_read_no_bool(h: Heap, node: u32, fuel: nat, t: Term, b: nat)
    requires
        h.wf(),
        h.live(node),
        t.reduces(h.term(node)),
        t.is_no_bool(b),
        fuel > b,
        h.room() >= 4 + 3 * b,
    ensures
        h.decode_bool(node, fuel) matches Ok((h1, r)) && r is None && h.leads_to(h1) && h1.room()
            + 4 + 3 * b >= h.room(),
{
    let (k, w) = choose|k: nat, w: Term|
        k <= b && #[trigger] Term::ask(t).reaches(k, w) && w != Term::marker(false) && w
            != Term::marker(true);
    crate::laws::lemma_ask(h, node, fuel, t, k, w);
}

/// Taking the parts gives the parts that the expression has.
pub proof fn lemma_read_fst(h: Heap, node: u32, fuel: nat, t: Term, x: Term, y: Term, b: nat)
    requires
        h.wf(),
        h.live(node),
        t.reduces(h.term(node)),
        t.has_parts(x, y, b),
        fuel > b,
        h.room() >= 4 + 3 * b,
    ensures
        h.pair_fst(node, fuel) matches Ok((h1, (r, f))) && h.leads_to(h1) && h1.live(r) && f + b
            >= fuel && h1.room() + 4 + 3 * b >= h.room() && x.reduces(h1.term(r)),
{
    reveal(Heap::pair_fst);
    let k = choose|k: nat| k <= b && #[trigger] Term::fst(t).reaches(k, x);
    crate::select::lemma_apply_fst(h, node);
    let (h1, app) = h.apply_fst(node)->Ok_0;
    lemma_ask_reduces(t, h.term(node));
    let (k1, x1) = crate::term::lemma_reduces_reaches(Term::fst(t), h1.term(app), k, x);
    crate::select::lemma_eval_reaches(h1, app, fuel, k1, x1);
    crate::select::lemma_eval(h1, app, fuel);
    let (h2, (r, f)) = h1.eval(app, fuel)->Ok_0;
    crate::term::lemma_reduces_trans(x, x1, h2.term(r));
}

/// Taking the parts gives the parts that the expression has.
pub proof fn lemma_read_snd(h: Heap, node: u32, fuel: nat, t: Term, x: Term, y: Term, b: nat)
    requires
        h.wf(),
        h.live(node),
        t.reduces(h.term(node)),
        t.has_parts(x, y, b),
        fuel > b,
        h.room() >= 5 + 3 * b,
    ensures
        h.pair_snd(node, fuel) matches Ok((h1, (r, f))) && h.leads_to(h1) && h1.live(r) && f + b
            >= fuel && h1.room() + 5 + 3 * b >= h.room() && y.reduces(h1.term(r)),
{
    reveal(Heap::pair_snd);
    let k = choose|k: nat| k <= b && #[trigger] Term::snd(t).reaches(k, y);
    crate::select::lemma_apply_snd(h, node);
    let (h1, app) = h.apply_snd(node)->Ok_0;
    lemma_ask_reduces(t, h.term(node));
    let (k1, y1) = crate::term::lemma_reduces_reaches(Term::snd(t), h1.term(app), k, y);
    crate::select::lemma_eval_reaches(h1, app, fuel, k1, y1);
    crate::select::lemma_eval(h1, app, fuel);
    let (h2, (r, f)) = h1.eval(app, fuel)->Ok_0;
    crate::term::lemma_reduces_trans(y, y1, h2.term(r));
}

/// Taking the parts of a pair that takes one argument gives the parts that the
/// expression has.
pub proof fn lemma_read_fst1(h: Heap, node: u32, fuel: nat, t: Term, x: Term, y: Term, b: nat)
    requires
        h.wf(),
        h.live(node),
        t.reduces(h.term(node)),
        t.has_parts1(x, y, b),
        fuel > b,
        h.room() >= 2 + 3 * b,
    ensures
        h.pair1_fst(node, fuel) matches Ok((h1, (r, f))) && h.leads_to(h1) && h1.live(r) && f + b
            >= fuel && h1.room() + 2 + 3 * b >= h.room() && x.reduces(h1.term(r)),
{
    reveal(Heap::pair1_fst);
    let first = Term::Atom(K);
    let q = Term::app(t, first);
    let k = choose|k: nat| k <= b && #[trigger] q.reaches(k, x);
    crate::intern::lemma_intern_k(h);
    let (h0, sel) = h.intern_k()->Ok_0;
    assert(h0.live(node));
    crate::select::lemma_apply(h0, node, sel);
    let (h1, app) = h0.apply(node, sel)->Ok_0;
    crate::term::lemma_reduces_refl(first);
    crate::term::lemma_reduces_app(t, first, h.term(node), first);
    let (k1, x1) = crate::term::lemma_reduces_reaches(q, h1.term(app), k, x);
    crate::select::lemma_eval_reaches(h1, app, fuel, k1, x1);
    crate::select::lemma_eval(h1, app, fuel);
    let (h2, (r, f)) = h1.eval(app, fuel)->Ok_0;
    crate::term::lemma_reduces_trans(x, x1, h2.term(r));
}

/// Taking the parts of a pair that takes one argument gives the parts that the
/// expression has.
pub proof fn lemma_read_snd1(h: Heap, node: u32, fuel: nat, t: Term, x: Term, y: Term, b: nat)
    requires
        h.wf(),
        h.live(node),
        t.reduces(h.term(node)),
        t.has_parts1(x, y, b),
        fuel > b,
        h.room() >= 4 + 3 * b,
    ensures
        h.pair1_snd(node, fuel) matches Ok((h1, (r, f))) && h.leads_to(h1) && h1.live(r) && f + b
            >= fuel && h1.room() + 4 + 3 * b >= h.room() && y.reduces(h1.term(r)),
{
    reveal(Heap::pair1_snd);
    let second = Term::no();
    let q = Term::app(t, second);
    let k = choose|k: nat| k <= b && #[trigger] q.reaches(k, y);
    crate::intern::lemma_intern_ki(h);
    let (h0, sel) = h.intern_ki()->Ok_0;
    assert(h0.live(node));
    crate::select::lemma_apply(h0, node, sel);
    let (h1, app) = h0.apply(node, sel)->Ok_0;
    crate::term::lemma_reduces_refl(second);
    crate::term::lemma_reduces_app(t, second, h.term(node), second);
    let (k1, y1) = crate::term::lemma_reduces_reaches(q, h1.term(app), k, y);
    crate::select::lemma_eval_reaches(h1, app, fuel, k1, y1);
    crate::select::lemma_eval(h1, app, fuel);
    let (h2, (r, f)) = h1.eval(app, fuel)->Ok_0;
    crate::term::lemma_reduces_trans(y, y1, h2.term(r));
}

proof fn lemma_read_bits(
    h: Heap,
    cur: u32,
    left: nat,
    remaining: nat,
    op: nat,
    bits: Seq<bool>,
    t: Term,
    n: nat,
    b: nat,
)
    requires
        h.wf(),
        h.live(cur),
        t.reduces(h.term(cur)),
        t.denotes(n, b),
        op > b,
        crate::encode::bit_length(n) <= left,
        n > 0 ==> remaining >= 4 * op + 2 * b * (crate::encode::bit_length(n) - 1),
        h.room() >= (17 + 12 * b) * (crate::encode::bit_length(n) + 1),
    ensures
        h.scott_bits(cur, left, remaining, op, bits) matches Ok((h1, r)) && r == bits
            + crate::laws::digits(n) && h.leads_to(h1) && h1.room() + (17 + 12 * b) * (
        crate::encode::bit_length(n) + 1) >= h.room(),
    decreases n,
{
    let l = crate::encode::bit_length(n);
    let cost = 17 + 12 * b;
    assert(cost * (l + 1) == cost * l + cost && cost * l >= 0) by (nonlinear_arith)
        requires
            cost >= 0,
            l >= 0,
    ;
    if left == 0 || remaining < op * 4 {
        crate::heap::lemma_leads_refl(h);
        if n > 0 {
            assert(2 * b * (l - 1) >= 0) by (nonlinear_arith)
                requires
                    b >= 0,
                    l >= 1,
            ;
        }
        assert(bits + crate::laws::digits(n) =~= bits);
    } else {
        let bit = n % 2 == 1;
        let (x, y) = lemma_number_parts(t, n, b);
        lemma_read_fst(h, cur, op, t, x, y, b);
        let (h1, (first, f1)) = h.pair_fst(cur, op)->Ok_0;
        crate::laws::lemma_still(h, h1, cur, t);
        lemma_read_bool(h1, first, op, x, bit, b);
        let (h2, _) = h1.decode_bool(first, op)->Ok_0;
        crate::laws::lemma_still(h1, h2, cur, t);
        lemma_read_snd(h2, cur, op, t, x, y, b);
        let (h3, (second, f2)) = h2.pair_snd(cur, op)->Ok_0;
        let rem1 = crate::decode::minus(remaining, crate::decode::minus(op, f1));
        let rem2 = crate::decode::minus(rem1, crate::decode::minus(op, f2));
        if n == 0 {
            lemma_read_bool(h3, second, op, y, false, b);
            assert(bits + crate::laws::digits(n) =~= bits);
        } else {
            let m = n / 2;
            assert(bits.push(bit) + crate::laws::digits(m) =~= bits + crate::laws::digits(n));
            if m > 0 {
                assert(2 * b * (l - 1) == 2 * b * (l - 2) + 2 * b) by (nonlinear_arith);
            }
            if bit {
                lemma_read_bits(h3, second, (left - 1) as nat, rem2, op, bits.push(bit), y, m, b);
            } else {
                lemma_read_not_false(h3, second, op, y, b);
                let (h4, _) = h3.decode_bool(second, op)->Ok_0;
                crate::laws::lemma_still(h3, h4, second, y);
                lemma_read_bits(h4, second, (left - 1) as nat, rem2, op, bits.push(bit), y, m, b);
            }
        }
    }
}

/// Reading a number gives the one that the expression is, given fuel for its
/// digits.
pub proof fn lemma_read_number(h: Heap, node: u32, fuel: nat, t: Term, n: u64, b: nat)
    requires
        h.wf(),
        h.live(node),
        t.reduces(h.term(node)),
        t.denotes(n as nat, b),
        crate::decode::step_fuel(fuel, 200, 10_000) > b,
        n > 0 ==> fuel >= 4 * crate::decode::step_fuel(fuel, 200, 10_000) + 126 * b,
        h.room() >= (17 + 12 * b) * 66,
    ensures
        h.decode_scott_num(node, fuel) matches Ok((h1, r)) && r == Some(n) && h.leads_to(h1)
            && h1.room() + (17 + 12 * b) * 66 >= h.room(),
{
    reveal(Heap::decode_scott_num);
    let op = crate::decode::step_fuel(fuel, 200, 10_000);
    let l = crate::encode::bit_length(n as nat);
    vstd::arithmetic::power2::lemma2_to64();
    crate::laws::lemma_bit_length(n as nat, 64);
    let cost = 17 + 12 * b;
    assert(cost * (l + 1) <= cost * 65) by (nonlinear_arith)
        requires
            l <= 64,
            cost >= 0,
    ;
    if n > 0 {
        assert(2 * b * (l - 1) <= 126 * b) by (nonlinear_arith)
            requires
                l <= 64,
                b >= 0,
        ;
    }
    lemma_read_bits(h, node, 64, fuel, op, Seq::empty(), t, n as nat, b);
    let (h1, bits) = h.scott_bits(node, 64, fuel, op, Seq::empty())->Ok_0;
    crate::laws::lemma_digits(n as nat);
    assert(bits =~= crate::laws::digits(n as nat));
    if n == 0 {
        crate::laws::lemma_still(h, h1, node, t);
        let (x, y) = lemma_number_parts(t, 0, b);
        lemma_read_fst(h1, node, op, t, x, y, b);
        let (h2, (fst, _)) = h1.pair_fst(node, op)->Ok_0;
        lemma_read_bool(h2, fst, op, x, false, b);
    }
}

proof fn lemma_read_chars(
    h: Heap,
    cur: u32,
    left: nat,
    remaining: nat,
    op: nat,
    chars: Seq<char>,
    t: Term,
    ns: Seq<u64>,
    b: nat,
)
    requires
        h.wf(),
        h.live(cur),
        t.reduces(h.term(cur)),
        t.lists(ns, b),
        ns.len() <= left,
        op >= 100_000,
        b <= 1_000,
        ns.len() > 0 ==> remaining >= 6 * op + 2 * b * (ns.len() - 1),
        h.room() >= (17 + 12 * b) * (67 * ns.len() + 1),
    ensures
        h.list_chars(cur, left, remaining, op, chars) matches Ok((h1, r)) && r == chars
            + crate::lists::chars_of(ns),
    decreases ns.len(),
{
    let cost = 17 + 12 * b;
    let l = ns.len();
    assert(cost * (67 * l + 1) == 67 * (cost * l) + cost && cost * l >= 0) by (nonlinear_arith)
        requires
            cost >= 0,
            l >= 0,
    ;
    if left == 0 || remaining < op * 6 {
        if l > 0 {
            assert(2 * b * (l - 1) >= 0) by (nonlinear_arith)
                requires
                    b >= 0,
                    l >= 1,
            ;
        }
        assert(chars + crate::lists::chars_of(ns) =~= chars);
    } else if l == 0 {
        lemma_read_bool(h, cur, op, t, false, b);
        assert(chars + crate::lists::chars_of(ns) =~= chars);
    } else {
        let rest = ns.skip(1);
        let n = ns[0];
        let (x, y) = lemma_list_parts(t, ns, b);
        assert(cost * l == cost * rest.len() + cost) by (nonlinear_arith)
            requires
                l == rest.len() + 1,
        ;
        assert(cost * rest.len() >= 0) by (nonlinear_arith)
            requires
                cost >= 0,
        ;
        assert(cost * (67 * rest.len() + 1) == 67 * (cost * rest.len()) + cost)
            by (nonlinear_arith);
        lemma_read_not_false(h, cur, op, t, b);
        let (h1, _) = h.decode_bool(cur, op)->Ok_0;
        crate::laws::lemma_still(h, h1, cur, t);
        lemma_read_fst(h1, cur, op, t, x, y, b);
        let (h2, (val, f1)) = h1.pair_fst(cur, op)->Ok_0;
        crate::laws::lemma_still(h1, h2, cur, t);
        lemma_read_snd(h2, cur, op, t, x, y, b);
        let (h3, (prev, f2)) = h2.pair_snd(cur, op)->Ok_0;
        crate::laws::lemma_still(h2, h3, val, x);
        lemma_read_number(h3, val, op * 3, x, n, b);
        let (h4, _) = h3.decode_scott_num(val, op * 3)->Ok_0;
        crate::laws::lemma_still(h3, h4, prev, y);
        let rem1 = crate::decode::minus(remaining, crate::decode::minus(op, f1));
        let rem2 = crate::decode::minus(rem1, crate::decode::minus(op, f2));
        let c = char_for(Some(crate::integer::wrap(n)));
        if rest.len() > 0 {
            assert(2 * b * (l - 1) == 2 * b * (rest.len() - 1) + 2 * b) by (nonlinear_arith)
                requires
                    l == rest.len() + 1,
            ;
        }
        lemma_read_chars(h4, prev, (left - 1) as nat, rem2, op, chars.push(c), y, rest, b);
        assert(chars.push(c) + crate::lists::chars_of(rest) =~= chars + crate::lists::chars_of(ns));
    }
}

/// Reading a string gives the characters of the list that the expression is,
/// the outermost last.
pub proof fn lemma_read_string(h: Heap, node: u32, fuel: nat, t: Term, ns: Seq<u64>, b: nat)
    requires
        h.wf(),
        h.live(node),
        t.reduces(h.term(node)),
        t.lists(ns, b),
        ns.len() <= 10_000,
        b <= 1_000,
        ns.len() > 0 ==> fuel >= 6 * crate::decode::step_fuel(fuel, 100, 100_000) + 2 * b * (
        ns.len() - 1),
        h.room() >= (17 + 12 * b) * (67 * ns.len() + 1),
    ensures
        h.decode_string(node, fuel) matches Ok((h1, s)) && s == crate::lists::chars_of(
            ns,
        ).reverse(),
{
    let op = crate::decode::step_fuel(fuel, 100, 100_000);
    lemma_read_chars(h, node, 10_000, fuel, op, Seq::empty(), t, ns, b);
    assert(Seq::<char>::empty() + crate::lists::chars_of(ns) =~= crate::lists::chars_of(ns));
}

/// A binary number that was made is the number.
pub proof fn lemma_number_denotes(n: nat)
    ensures
        Term::number(n).denotes(n, 9),
    decreases n,
{
    let t = Term::number(n);
    let bit = n % 2 == 1;
    let rest = if n == 0 {
        Term::no()
    } else {
        Term::number(n / 2)
    };
    let x = Term::boolean(bit);
    assert(t == Term::pair(x, rest));
    crate::laws::lemma_values_normal(bit, Term::no(), Term::no());
    crate::laws::lemma_pair_fst_steps(x, rest);
    crate::laws::lemma_pair_snd_steps(x, rest);
    assert(rest.step() is None) by {
        if n == 0 {
            crate::laws::lemma_values_normal(false, rest, rest);
        } else if n / 2 == 0 {
            crate::laws::lemma_values_normal(false, Term::no(), Term::no());
        } else {
            crate::laws::lemma_values_normal(
                false,
                Term::boolean((n / 2) % 2 == 1),
                Term::number(n / 2 / 2),
            );
        }
    }
    assert(Term::fst(t).reaches(8, x));
    assert(Term::snd(t).reaches(9, rest));
    assert(t.has_parts(x, rest, 9));
    let k = crate::laws::lemma_bool_reaches(bit);
    assert(Term::ask(x).reaches(k, Term::marker(bit)));
    if n == 0 {
        let j = crate::laws::lemma_bool_reaches(false);
        assert(Term::ask(rest).reaches(j, Term::marker(false)));
    } else {
        let m = n / 2;
        lemma_number_denotes(m);
        if n % 2 == 0 {
            let w = crate::laws::lemma_pair_ask(
                Term::boolean(m % 2 == 1),
                Term::number(m / 2),
            );
            assert(Term::ask(rest).reaches(6, w));
        }
    }
}

/// What a boolean, a pair, and its parts are, if the parts are weak head normal
/// forms.
pub proof fn lemma_pair_means(x: Term, y: Term)
    requires
        x.step() is None,
        y.step() is None,
    ensures
        Term::pair(x, y).has_parts(x, y, 9),
        Term::pair(x, y).is_not_false(9),
        Term::pair(x, y).is_no_bool(9),
{
    let t = Term::pair(x, y);
    crate::laws::lemma_pair_fst_steps(x, y);
    crate::laws::lemma_pair_snd_steps(x, y);
    assert(Term::fst(t).reaches(8, x));
    assert(Term::snd(t).reaches(9, y));
    let w = crate::laws::lemma_pair_ask(x, y);
    assert(Term::ask(t).reaches(6, w));
}

/// What a pair that takes one argument is, if the parts are weak head normal
/// forms.
pub proof fn lemma_pair1_means(x: Term, y: Term)
    requires
        x.step() is None,
        y.step() is None,
    ensures
        Term::pair1(x, y).has_parts1(x, y, 6),
        Term::pair1(x, y).is_no_bool(6),
{
    let t = Term::pair1(x, y);
    crate::laws::lemma_pair1_fst_steps(x, y);
    crate::laws::lemma_pair1_snd_steps(x, y);
    assert(Term::app(t, Term::Atom(K)).reaches(5, x));
    assert(Term::app(t, Term::no()).reaches(6, y));
    let w = crate::laws::lemma_pair1_ask(x, y);
    assert(Term::ask(t).reaches(3, w));
}

/// A boolean that was made is the boolean.
pub proof fn lemma_boolean_says(v: bool)
    ensures
        Term::boolean(v).says(v, 9),
        Term::boolean(v).step() is None,
{
    let k = crate::laws::lemma_bool_reaches(v);
    assert(Term::ask(Term::boolean(v)).reaches(k, Term::marker(v)));
    crate::laws::lemma_values_normal(v, Term::no(), Term::no());
}

/// A binary number that was made is a weak head normal form.
proof fn lemma_number_normal(n: nat)
    ensures
        Term::number(n).step() is None,
{
    crate::laws::lemma_values_normal(false, Term::no(), Term::no());
    crate::laws::lemma_values_normal(false, Term::boolean(n % 2 == 1), Term::number(n / 2));
}

/// A list of numbers that was made is the list.
pub proof fn lemma_numbers_list(ns: Seq<u64>)
    ensures
        Term::numbers(ns).lists(ns, 9),
        Term::numbers(ns).step() is None,
    decreases ns.len(),
{
    crate::lists::lemma_numbers(ns);
    if ns.len() == 0 {
        lemma_boolean_says(false);
    } else {
        let x = Term::number(ns[0] as nat);
        let y = Term::numbers(ns.skip(1));
        lemma_numbers_list(ns.skip(1));
        lemma_number_denotes(ns[0] as nat);
        lemma_number_normal(ns[0] as nat);
        lemma_pair_means(x, y);
        crate::laws::lemma_values_normal(false, x, y);
        assert(Term::numbers(ns).has_parts(x, y, 9));
    }
}

/// A list of booleans that was made is the list.
pub proof fn lemma_booleans_list(bs: Seq<bool>)
    ensures
        Term::booleans(bs).lists_bools(bs, 9),
        Term::booleans(bs).step() is None,
    decreases bs.len(),
{
    crate::lists::lemma_booleans(bs);
    if bs.len() == 0 {
        lemma_boolean_says(false);
    } else {
        let x = Term::boolean(bs[0]);
        let y = Term::booleans(bs.skip(1));
        lemma_booleans_list(bs.skip(1));
        lemma_boolean_says(bs[0]);
        lemma_pair_means(x, y);
        crate::laws::lemma_values_normal(false, x, y);
        assert(Term::booleans(bs).has_parts(x, y, 9));
    }
}

/// How much fuel is enough to read a number whose digits take `b` reductions.
pub proof fn lemma_number_fuel(fuel: nat, b: nat)
    requires
        fuel >= 40_000 + 200 * (b + 1),
    ensures
        crate::decode::step_fuel(fuel, 200, 10_000) > b,
        fuel >= 4 * crate::decode::step_fuel(fuel, 200, 10_000) + 126 * b,
{
}

} // verus!
