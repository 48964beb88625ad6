//! What reading gives where an expression is only in part what it is read as:
//! numerals, digits, and lists that break off.

use vstd::prelude::*;
use crate::heap::Heap;
use crate::lists::first;
use crate::node::{APP, MARKER_SUCC, MARKER_ZERO};
use crate::term::Term;

verus! {

broadcast use crate::heap::group_leads;

impl Term {
    /// A weak head normal form that is neither the base marker nor an application
    /// of the function marker.
    pub open spec fn is_stuck(self) -> bool {
        &&& self.step() is None
        &&& self != Term::Atom(MARKER_ZERO)
        &&& !(self.is_app() && self.fun() == Term::Atom(MARKER_SUCC))
    }

    /// After `n` applications of the function marker comes neither another one nor
    /// the base marker, within `k` reductions.
    pub open spec fn stalls(self, n: nat, k: nat) -> bool
        decreases n,
    {
        exists|j: nat, w: Term| #[trigger]
            self.reaches(j, w) && j <= k && if n == 0 {
                w.is_stuck()
            } else {
                w.is_app() && w.fun() == Term::Atom(MARKER_SUCC) && w.arg().stalls(
                    (n - 1) as nat,
                    (k - j) as nat,
                )
            }
    }

    /// The expression is no Church numeral: it breaks off after `n` applications of
    /// its first argument.
    pub open spec fn is_no_numeral(self, n: nat, k: nat) -> bool {
        Term::app2(self, Term::Atom(MARKER_SUCC), Term::Atom(MARKER_ZERO)).stalls(n, k)
    }

    /// The expression begins with the digits of a number, the lowest first, and
    /// then breaks off: what follows has no digit. After a zero something that is
    /// not false follows.
    pub open spec fn has_digits(self, bits: Seq<bool>, b: nat) -> bool
        decreases bits.len(),
    {
        if bits.len() == 0 {
            self.is_no_number(b)
        } else {
            exists|x: Term, y: Term| #[trigger]
                self.has_parts(x, y, b) && x.says(bits[0], b) && (!bits[0] ==> y.is_not_false(b))
                    && y.has_digits(bits.skip(1), b)
        }
    }

    /// The expression is a list that begins with the numbers `ns`, and then holds
    /// something that is no number.
    pub open spec fn lists_some(self, ns: Seq<u64>, b: nat) -> bool
        decreases ns.len(),
    {
        self.is_not_false(b) && exists|x: Term, y: Term| #[trigger]
            self.has_parts(x, y, b) && if ns.len() == 0 {
                x.is_no_number(b)
            } else {
                x.denotes(ns[0] as nat, b) && y.lists_some(ns.skip(1), b)
            }
    }

    /// The expression is a list that begins with the booleans `bs`, and then holds
    /// something that is no boolean.
    pub open spec fn lists_some_bools(self, bs: Seq<bool>, b: nat) -> bool
        decreases bs.len(),
    {
        self.is_not_false(b) && exists|x: Term, y: Term| #[trigger]
            self.has_parts(x, y, b) && if bs.len() == 0 {
                x.is_no_bool(b)
            } else {
                x.says(bs[0], b) && y.lists_some_bools(bs.skip(1), b)
            }
    }
}

/// Reduction does not change what stalls.
proof fn lemma_stalls(t: Term, u: Term, n: nat, k: nat)
    requires
        t.stalls(n, k),
        t.reduces(u),
    ensures
        u.stalls(n, k),
    decreases n,
{
    let (j, w) = choose|j: nat, w: Term| #[trigger]
        t.reaches(j, w) && j <= k && if n == 0 {
            w.is_stuck()
        } else {
            w.is_app() && w.fun() == Term::Atom(MARKER_SUCC) && w.arg().stalls(
                (n - 1) as nat,
                (k - j) as nat,
            )
        };
    let (j1, w1) = crate::term::lemma_reduces_reaches(t, u, j, w);
    crate::term::lemma_reduces_normal(w, w1);
    reveal_with_fuel(Term::head, 2);
    reveal_with_fuel(Term::arity, 2);
    if n > 0 {
        crate::term::lemma_normal(w.fun());
        crate::term::lemma_reduces_normal(w.fun(), w1.fun());
        lemma_stalls(w.arg(), w1.arg(), (n - 1) as nat, (k - j) as nat);
        lemma_stalls_more(w1.arg(), (n - 1) as nat, (k - j) as nat, (k - j1) as nat);
    }
    assert(u.reaches(j1, w1));
}

proof fn lemma_stalls_more(t: Term, n: nat, k: nat, k1: nat)
    requires
        t.stalls(n, k),
        k <= k1,
    ensures
        t.stalls(n, k1),
    decreases n,
{
    let (j, w) = choose|j: nat, w: Term| #[trigger]
        t.reaches(j, w) && j <= k && if n == 0 {
            w.is_stuck()
        } else {
            w.is_app() && w.fun() == Term::Atom(MARKER_SUCC) && w.arg().stalls(
                (n - 1) as nat,
                (k - j) as nat,
            )
        };
    if n > 0 {
        lemma_stalls_more(w.arg(), (n - 1) as nat, (k - j) as nat, (k1 - j) as nat);
    }
    assert(t.reaches(j, w));
}

/// Counting what stalls ends without a number.
proof fn lemma_count_stalls(h: Heap, node: u32, fuel: nat, count: nat, n: nat, k: nat)
    requires
        h.wf(),
        h.live(node),
        h.term(node).stalls(n, k),
        fuel > k,
        h.room() >= 3 * k,
    ensures
        h.eval(node, fuel) matches Ok((h1, (c, f))) && (h1.church_count(c, f, count) matches Ok(
            (h2, r),
        ) && r is None),
    decreases n,
{
    let (j, w) = choose|j: nat, w: Term| #[trigger]
        h.term(node).reaches(j, w) && j <= k && if n == 0 {
            w.is_stuck()
        } else {
            w.is_app() && w.fun() == Term::Atom(MARKER_SUCC) && w.arg().stalls(
                (n - 1) as nat,
                (k - j) as nat,
            )
        };
    crate::select::lemma_eval_reaches(h, node, fuel, j, w);
    crate::select::lemma_eval(h, node, fuel);
    let (h1, (c, f)) = h.eval(node, fuel)->Ok_0;
    crate::term::lemma_reduces_normal(w, h1.term(c));
    reveal_with_fuel(Term::head, 2);
    reveal_with_fuel(Term::arity, 2);
    assert(h1.graph.live(c));
    let a = h1.at(c).a;
    if h1.tag(c) == APP {
        assert(h1.live(a));
        crate::graph::lemma_follow(h1.graph, a, h1.graph.ranking());
        assert(h1.live(h1.follow(a)));
    }
    if n > 0 {
        crate::term::lemma_normal(w.fun());
        crate::term::lemma_reduces_normal(w.fun(), h1.term(c).fun());
        assert(h1.tag(c) == APP);
        let b = h1.at(c).b;
        lemma_stalls(w.arg(), h1.term(b), (n - 1) as nat, (k - j) as nat);
        lemma_count_stalls(h1, b, f, count + 1, (n - 1) as nat, (k - j) as nat);
        crate::select::lemma_eval(h1, b, f);
    } else if h1.tag(c) == APP {
        assert(h1.term(c).reaches(0, h1.term(c)));
        crate::select::lemma_eval_reaches(h1, c, f, 0, h1.term(c));
        crate::select::lemma_eval(h1, c, f);
    }
}

/// What is no Church numeral is not read as one.
pub proof fn lemma_no_numeral(h: Heap, node: u32, fuel: nat, n: nat, k: nat)
    requires
        h.wf(),
        h.live(node),
        h.term(node).is_no_numeral(n, k),
        fuel > k,
        h.room() >= 4 + 3 * k,
    ensures
        h.decode_church_num(node, fuel) matches Ok((h1, r)) && r is None,
{
    crate::church::lemma_apply_church(h, node);
    let (h1, app2) = h.apply_church(node)->Ok_0;
    lemma_count_stalls(h1, app2, fuel, 0, n, k);
}

proof fn lemma_read_digits(
    h: Heap,
    cur: u32,
    left: nat,
    remaining: nat,
    op: nat,
    bits: Seq<bool>,
    t: Term,
    more: Seq<bool>,
    b: nat,
)
    requires
        h.wf(),
        h.live(cur),
        t.reduces(h.term(cur)),
        t.has_digits(more, b),
        op > b,
        more.len() <= left,
        remaining >= 4 * op + 2 * b * more.len(),
        h.room() >= (17 + 12 * b) * (more.len() + 1),
    ensures
        h.scott_bits(cur, left, remaining, op, bits) matches Ok((h1, r)) && r == bits + more,
    decreases more.len(),
{
    let l = more.len();
    let cost = 17 + 12 * b;
    assert(cost * (l + 1) == cost * l + cost && cost * l >= 0 && 2 * b * l >= 0)
        by (nonlinear_arith)
        requires
            cost >= 0,
            l >= 0,
            b >= 0,
    ;
    if left == 0 {
        assert(bits + more =~= bits);
    } else if l == 0 {
        crate::readings::lemma_read_digit(h, cur, op, t, b);
        assert(bits + more =~= bits);
    } else {
        let (x, y) = choose|x: Term, y: Term| #[trigger]
            t.has_parts(x, y, b) && x.says(more[0], b) && (!more[0] ==> y.is_not_false(b))
                && y.has_digits(more.skip(1), b);
        crate::meaning::lemma_read_fst(h, cur, op, t, x, y, b);
        let (h1, (fst, f1)) = h.pair_fst(cur, op)->Ok_0;
        crate::laws::lemma_still(h, h1, cur, t);
        crate::meaning::lemma_read_bool(h1, fst, op, x, more[0], b);
        let (h2, _) = h1.decode_bool(fst, op)->Ok_0;
        crate::laws::lemma_still(h1, h2, cur, t);
        crate::meaning::lemma_read_snd(h2, cur, op, t, x, y, b);
        let (h3, (snd, f2)) = h2.pair_snd(cur, op)->Ok_0;
        let rem1 = crate::decode::minus(remaining, crate::decode::minus(op, f1));
        let rem2 = crate::decode::minus(rem1, crate::decode::minus(op, f2));
        let next = bits.push(more[0]);
        let rest = more.skip(1);
        assert(next + rest =~= bits + more);
        assert(2 * b * l == 2 * b * (l - 1) + 2 * b) by (nonlinear_arith);
        if more[0] {
            lemma_read_digits(h3, snd, (left - 1) as nat, rem2, op, next, y, rest, b);
        } else {
            crate::meaning::lemma_read_not_false(h3, snd, op, y, b);
            let (h4, _) = h3.decode_bool(snd, op)->Ok_0;
            crate::laws::lemma_still(h3, h4, snd, y);
            lemma_read_digits(h4, snd, (left - 1) as nat, rem2, op, next, y, rest, b);
        }
    }
}

/// Of a number that breaks off the digits are read that it begins with.
pub proof fn lemma_digits_so_far(
    h: Heap,
    node: u32,
    fuel: nat,
    t: Term,
    bits: Seq<bool>,
    b: nat,
)
    requires
        h.wf(),
        h.live(node),
        t.reduces(h.term(node)),
        t.has_digits(bits, b),
        0 < bits.len() <= 64,
        fuel >= crate::readings::value_fuel(b),
        h.room() >= crate::readings::value_room(b),
    ensures
        h.decode_scott_num(node, fuel) matches Ok((h1, r)) && (r matches Some(n) && n
            == crate::decode::value(bits)),
{
    reveal(Heap::decode_scott_num);
    let op = crate::decode::step_fuel(fuel, 200, 10_000);
    crate::decode::lemma_value_fits(bits);
    let l = bits.len();
    assert((17 + 12 * b) * (l + 1) <= (17 + 12 * b) * 65 && 2 * b * l <= 128 * b)
        by (nonlinear_arith)
        requires
            l <= 64,
            b >= 0,
    ;
    lemma_read_digits(h, node, 64, fuel, op, Seq::empty(), t, bits, b);
    assert(Seq::<bool>::empty() + bits =~= bits);
}

proof fn lemma_some_numbers(
    h: Heap,
    cur: u32,
    remaining: nat,
    left: nat,
    items: Seq<u64>,
    t: Term,
    ns: Seq<u64>,
    b: nat,
)
    requires
        h.wf(),
        h.live(cur),
        t.reduces(h.term(cur)),
        t.lists_some(ns, b),
        remaining >= crate::lists::numbers_fuel(ns.len() + 1, b),
        h.room() >= crate::lists::numbers_room(ns.len() + 1, b),
    ensures
        h.number_list(cur, remaining, left, items) matches Ok((h1, r)) && r == items + first(ns, left),
    decreases ns.len(),
{
    if left == 0 {
        assert(items + first(ns, left) =~= items);
    } else {
        crate::lists::lemma_numbers_need(ns.len() + 1, b);
        let (x, y) = choose|x: Term, y: Term| #[trigger]
            t.has_parts(x, y, b) && if ns.len() == 0 {
                x.is_no_number(b)
            } else {
                x.denotes(ns[0] as nat, b) && y.lists_some(ns.skip(1), b)
            };
        let op = remaining / 20;
        crate::lists::lemma_cell(h, cur, op, t, x, y, b);
        let (h1, c) = h.cell(cur, op)->Ok_0;
        let cell = c->0;
        let rem = cell.left_of(remaining, op);
        crate::meaning::lemma_number_fuel(rem / 20, b);
        if ns.len() == 0 {
            crate::readings::lemma_read_no_number(h1, cell.head, rem / 20, x, b);
            assert(items + first(ns, left) =~= items);
        } else {
            crate::meaning::lemma_read_number(h1, cell.head, rem / 20, x, ns[0], b);
            let (h2, _) = h1.decode_scott_num(cell.head, rem / 20)->Ok_0;
            crate::laws::lemma_still(h1, h2, cell.tail, y);
            let rest = ns.skip(1);
            lemma_some_numbers(h2, cell.tail, rem, (left - 1) as nat, items.push(ns[0]), y, rest, b);
            assert(items.push(ns[0]) + first(rest, (left - 1) as nat) =~= items + first(ns, left));
        }
    }
}

/// Of a list that holds something else after numbers, the numbers are read, as
/// many as there may be.
pub proof fn lemma_numbers_so_far(
    h: Heap,
    node: u32,
    fuel: nat,
    max: nat,
    t: Term,
    ns: Seq<u64>,
    b: nat,
)
    requires
        h.wf(),
        h.live(node),
        t.reduces(h.term(node)),
        t.lists_some(ns, b),
        fuel >= crate::lists::numbers_fuel(ns.len() + 1, b),
        h.room() >= crate::lists::numbers_room(ns.len() + 1, b),
    ensures
        h.number_list(node, fuel, max, Seq::empty()) matches Ok((h1, r)) && (ns.len() <= max ==> r
            == ns) && (ns.len() > max ==> r == ns.take(max as int)),
{
    lemma_some_numbers(h, node, fuel, max, Seq::empty(), t, ns, b);
    assert(Seq::<u64>::empty() + first(ns, max) =~= first(ns, max));
}

proof fn lemma_some_bools(
    h: Heap,
    cur: u32,
    remaining: nat,
    left: nat,
    items: Seq<bool>,
    t: Term,
    bs: Seq<bool>,
    b: nat,
)
    requires
        h.wf(),
        h.live(cur),
        t.reduces(h.term(cur)),
        t.lists_some_bools(bs, b),
        remaining >= 20 * (b + 1) + 2 * b * (bs.len() + 1),
        h.room() >= crate::lists::bools_room(bs.len() + 1, b),
    ensures
        h.bool_list(cur, remaining, left, items) matches Ok((h1, r)) && r == items + first(bs, left),
    decreases bs.len(),
{
    if left == 0 {
        assert(items + first(bs, left) =~= items);
    } else {
        crate::lists::lemma_bools_need(bs.len() + 1, b);
        let (x, y) = choose|x: Term, y: Term| #[trigger]
            t.has_parts(x, y, b) && if bs.len() == 0 {
                x.is_no_bool(b)
            } else {
                x.says(bs[0], b) && y.lists_some_bools(bs.skip(1), b)
            };
        let op = remaining / 20;
        crate::lists::lemma_cell(h, cur, op, t, x, y, b);
        let (h1, c) = h.cell(cur, op)->Ok_0;
        let cell = c->0;
        let rem = cell.left_of(remaining, op);
        if bs.len() == 0 {
            crate::meaning::lemma_read_no_bool(h1, cell.head, rem / 20, x, b);
            assert(items + first(bs, left) =~= items);
        } else {
            crate::meaning::lemma_read_bool(h1, cell.head, rem / 20, x, bs[0], b);
            let (h2, _) = h1.decode_bool(cell.head, rem / 20)->Ok_0;
            crate::laws::lemma_still(h1, h2, cell.tail, y);
            let rest = bs.skip(1);
            lemma_some_bools(h2, cell.tail, rem, (left - 1) as nat, items.push(bs[0]), y, rest, b);
            assert(items.push(bs[0]) + first(rest, (left - 1) as nat) =~= items + first(bs, left));
        }
    }
}

/// Of a list that holds something else after booleans, the booleans are read, as
/// many as there may be.
pub proof fn lemma_bools_so_far(
    h: Heap,
    node: u32,
    fuel: nat,
    max: nat,
    t: Term,
    bs: Seq<bool>,
    b: nat,
)
    requires
        h.wf(),
        h.live(node),
        t.reduces(h.term(node)),
        t.lists_some_bools(bs, b),
        fuel >= 20 * (b + 1) + 2 * b * (bs.len() + 1),
        h.room() >= crate::lists::bools_room(bs.len() + 1, b),
    ensures
        h.bool_list(node, fuel, max, Seq::empty()) matches Ok((h1, r)) && (bs.len() <= max ==> r
            == bs) && (bs.len() > max ==> r == bs.take(max as int)),
{
    lemma_some_bools(h, node, fuel, max, Seq::empty(), t, bs, b);
    assert(Seq::<bool>::empty() + first(bs, max) =~= first(bs, max));
}

proof fn lemma_some_bits(
    h: Heap,
    cur: u32,
    left: nat,
    remaining: nat,
    op: nat,
    bits: Seq<bool>,
    t: Term,
    bs: Seq<bool>,
    b: nat,
)
    requires
        h.wf(),
        h.live(cur),
        t.reduces(h.term(cur)),
        t.lists_some_bools(bs, b),
        op > b,
        bs.len() < left,
        remaining >= 4 * op + 2 * b * bs.len(),
        h.room() >= crate::lists::bools_room(bs.len() + 1, b),
    ensures
        h.list_bits(cur, left, remaining, op, bits) matches Ok((h1, r)) && r is None && h.leads_to(h1)
            && h1.room() + crate::lists::bools_room(bs.len() + 1, b) >= h.room(),
    decreases bs.len(),
{
    crate::lists::lemma_bools_need(bs.len() + 1, b);
    assert(2 * b * bs.len() >= 0) by (nonlinear_arith);
    let (x, y) = choose|x: Term, y: Term| #[trigger]
        t.has_parts(x, y, b) && if bs.len() == 0 {
            x.is_no_bool(b)
        } else {
            x.says(bs[0], b) && y.lists_some_bools(bs.skip(1), b)
        };
    crate::meaning::lemma_read_not_false(h, cur, op, t, b);
    let (h1, _) = h.decode_bool(cur, op)->Ok_0;
    crate::laws::lemma_still(h, h1, cur, t);
    crate::meaning::lemma_read_fst(h1, cur, op, t, x, y, b);
    let (h2, (head, f1)) = h1.pair_fst(cur, op)->Ok_0;
    if bs.len() == 0 {
        crate::meaning::lemma_read_no_bool(h2, head, op, x, b);
    } else {
        crate::meaning::lemma_read_bool(h2, head, op, x, bs[0], b);
        let (h3, _) = h2.decode_bool(head, op)->Ok_0;
        crate::laws::lemma_still(h1, h3, cur, t);
        crate::meaning::lemma_read_snd(h3, cur, op, t, x, y, b);
        let (h4, (tail, f2)) = h3.pair_snd(cur, op)->Ok_0;
        let rem1 = crate::decode::minus(remaining, crate::decode::minus(op, f1));
        let rem2 = crate::decode::minus(rem1, crate::decode::minus(op, f2));
        crate::lists::lemma_bools_need(bs.len(), b);
        lemma_some_bits(
            h4,
            tail,
            (left - 1) as nat,
            rem2,
            op,
            bits.push(bs[0]),
            y,
            bs.skip(1),
            b,
        );
    }
}

/// A list of less than 64 bits and then something else is no integer.
pub proof fn lemma_no_integer(h: Heap, node: u32, fuel: nat, t: Term, bs: Seq<bool>, b: nat)
    requires
        h.wf(),
        h.live(node),
        t.reduces(h.term(node)),
        t.lists_some_bools(bs, b),
        bs.len() < 64,
        crate::decode::step_fuel(fuel, 200, 10_000) > b,
        fuel >= 4 * crate::decode::step_fuel(fuel, 200, 10_000) + 126 * b,
        h.room() >= crate::lists::bools_room(64, b),
    ensures
        h.decode_integer(node, fuel) matches Ok((h1, r)) && r is None && h.leads_to(h1) && h1.room()
            + crate::lists::bools_room(64, b) >= h.room(),
{
    reveal(Heap::decode_integer);
    let op = crate::decode::step_fuel(fuel, 200, 10_000);
    let l = bs.len();
    let c = 17 + 12 * b;
    assert(2 * b * l <= 126 * b && c * (l + 2) <= c * 65) by (nonlinear_arith)
        requires
            l <= 63,
            b >= 0,
            c >= 0,
    ;
    lemma_some_bits(h, node, 64, fuel, op, Seq::empty(), t, bs, b);
}

impl Term {
    /// The expression has a character code: a number, or else a list of at most 64
    /// bits. What is neither has none.
    pub open spec fn has_code(self, c: Option<i64>, b: nat) -> bool {
        ||| exists|n: u64| c == Some(crate::integer::wrap(n)) && #[trigger] self.is_word(n, b)
        ||| self.is_no_number(b) && exists|bs: Seq<bool>| #[trigger]
            self.lists_bools(bs, b) && bs.len() <= 64 && c == Some(
                crate::integer::signed_value(bs) as i64,
            )
        ||| self.is_no_number(b) && c is None && exists|bs: Seq<bool>| #[trigger]
            self.lists_some_bools(bs, b) && bs.len() < 64
    }

    /// The expression is the binary number `n`.
    pub open spec fn is_word(self, n: u64, b: nat) -> bool {
        self.denotes(n as nat, b)
    }

    /// The expression is a list whose elements have these codes.
    pub open spec fn spells(self, cs: Seq<Option<i64>>, b: nat) -> bool
        decreases cs.len(),
    {
        if cs.len() == 0 {
            self.says(false, b)
        } else {
            self.is_not_false(b) && exists|x: Term, y: Term| #[trigger]
                self.has_parts(x, y, b) && x.has_code(cs[0], b) && y.spells(cs.skip(1), b)
        }
    }
}

/// A character code is read as what it is.
proof fn lemma_read_code(h: Heap, node: u32, fuel: nat, t: Term, c: Option<i64>, b: nat)
    requires
        h.wf(),
        h.live(node),
        t.reduces(h.term(node)),
        t.has_code(c, b),
        fuel >= 300_000,
        b <= 1_000,
        h.room() >= (17 + 12 * b) * 66,
    ensures
        h.char_code(node, fuel) matches Ok((h1, r)) && r == c && h.leads_to(h1) && h1.room() + (17
            + 12 * b) * 66 >= h.room(),
{
    assert((17 + 12 * b) * (64 + 1) == 1105 + 780 * b && (17 + 12 * b) * 66 == 1122 + 792 * b && (17
        + 12 * b) * 65 == 1105 + 780 * b) by (nonlinear_arith);
    assert(crate::lists::bools_room(64, b) == 1105 + 780 * b);
    let op = crate::decode::step_fuel(fuel, 200, 10_000);
    if exists|n: u64| c == Some(crate::integer::wrap(n)) && #[trigger] t.is_word(n, b) {
        let n = choose|n: u64| c == Some(crate::integer::wrap(n)) && #[trigger] t.is_word(n, b);
        crate::meaning::lemma_read_number(h, node, fuel, t, n, b);
    } else {
        crate::readings::lemma_read_no_number(h, node, fuel, t, b);
        let (h1, _) = h.decode_scott_num(node, fuel)->Ok_0;
        crate::laws::lemma_still(h, h1, node, t);
        if c is None {
            let bs = choose|bs: Seq<bool>| #[trigger] t.lists_some_bools(bs, b) && bs.len() < 64;
            lemma_no_integer(h1, node, fuel, t, bs, b);
        } else {
            let bs = choose|bs: Seq<bool>| #[trigger]
                t.lists_bools(bs, b) && bs.len() <= 64 && c == Some(
                    crate::integer::signed_value(bs) as i64,
                );
            let n = bs.len();
            let k = 17 + 12 * b;
            assert(k * (n + 1) <= k * 65) by (nonlinear_arith)
                requires
                    n <= 64,
                    k >= 0,
            ;
            if n > 0 {
                assert(2 * b * (n - 1) <= 126 * b) by (nonlinear_arith)
                    requires
                        1 <= n <= 64,
                        b >= 0,
                ;
            }
            crate::lists::lemma_decode_integer(h1, node, fuel, t, bs, b);
        }
    }
}

/// The characters of the codes.
pub open spec fn spelled(cs: Seq<Option<i64>>) -> Seq<char> {
    Seq::new(cs.len(), |k: int| crate::integer::char_for(cs[k]))
}

proof fn lemma_read_spelled(
    h: Heap,
    cur: u32,
    left: nat,
    remaining: nat,
    op: nat,
    chars: Seq<char>,
    t: Term,
    cs: Seq<Option<i64>>,
    b: nat,
)
    requires
        h.wf(),
        h.live(cur),
        t.reduces(h.term(cur)),
        t.spells(cs, b),
        op >= 100_000,
        b <= 1_000,
        remaining >= 6 * op + 2 * b * cs.len(),
        h.room() >= (17 + 12 * b) * (67 * cs.len() + 1),
    ensures
        h.list_chars(cur, left, remaining, op, chars) matches Ok((h1, r)) && r == chars + first(
            spelled(cs),
            left,
        ),
    decreases cs.len(),
{
    let k = 17 + 12 * b;
    let l = cs.len();
    assert(k * (67 * l + 1) == 67 * (k * l) + k && k * l >= 0 && 2 * b * l >= 0)
        by (nonlinear_arith)
        requires
            k >= 0,
            l >= 0,
            b >= 0,
    ;
    if left == 0 {
        assert(chars + first(spelled(cs), left) =~= chars);
    } else if l == 0 {
        crate::meaning::lemma_read_bool(h, cur, op, t, false, b);
        assert(chars + first(spelled(cs), left) =~= chars);
    } else {
        let rest = cs.skip(1);
        let m = rest.len();
        let (x, y) = choose|x: Term, y: Term| #[trigger]
            t.has_parts(x, y, b) && x.has_code(cs[0], b) && y.spells(cs.skip(1), b);
        assert(k * l == k * m + k && k * m >= 0 && k * (67 * m + 1) == 67 * (k * m) + k && 2 * b * l
            == 2 * b * m + 2 * b) by (nonlinear_arith)
            requires
                l == m + 1,
                k >= 0,
                m >= 0,
        ;
        crate::meaning::lemma_read_not_false(h, cur, op, t, b);
        let (h1, _) = h.decode_bool(cur, op)->Ok_0;
        crate::laws::lemma_still(h, h1, cur, t);
        crate::meaning::lemma_read_fst(h1, cur, op, t, x, y, b);
        let (h2, (val, f1)) = h1.pair_fst(cur, op)->Ok_0;
        crate::laws::lemma_still(h1, h2, cur, t);
        crate::meaning::lemma_read_snd(h2, cur, op, t, x, y, b);
        let (h3, (prev, f2)) = h2.pair_snd(cur, op)->Ok_0;
        crate::laws::lemma_still(h2, h3, val, x);
        lemma_read_code(h3, val, op * 3, x, cs[0], b);
        let (h4, _) = h3.char_code(val, op * 3)->Ok_0;
        crate::laws::lemma_still(h3, h4, prev, y);
        let rem1 = crate::decode::minus(remaining, crate::decode::minus(op, f1));
        let rem2 = crate::decode::minus(rem1, crate::decode::minus(op, f2));
        let next = chars.push(crate::integer::char_for(cs[0]));
        lemma_read_spelled(h4, prev, (left - 1) as nat, rem2, op, next, y, rest, b);
        assert(next + first(spelled(rest), (left - 1) as nat) =~= chars + first(spelled(cs), left));
    }
}

/// Reading a string gives a character for each of the first ten thousand elements
/// of the list, the outermost last: for a number the character with that code, for
/// a list of bits the one of the integer, and a question mark for anything else.
pub proof fn lemma_spelled(
    h: Heap,
    node: u32,
    fuel: nat,
    t: Term,
    cs: Seq<Option<i64>>,
    b: nat,
)
    requires
        h.wf(),
        h.live(node),
        t.reduces(h.term(node)),
        t.spells(cs, b),
        b <= 1_000,
        fuel >= 6 * crate::decode::step_fuel(fuel, 100, 100_000) + 2 * b * cs.len(),
        h.room() >= (17 + 12 * b) * (67 * cs.len() + 1),
    ensures
        h.decode_string(node, fuel) matches Ok((h1, s)) && {
            &&& s.len() == if cs.len() < 10_000 {
                cs.len()
            } else {
                10_000
            }
            &&& forall|k: int|
                0 <= k < s.len() ==> match cs[k] {
                    None => (#[trigger] s[s.len() - 1 - k]) == '?',
                    Some(c) => if 0 <= c < 0xd800 || 0xe000 <= c <= 0x10_ffff {
                        s[s.len() - 1 - k] as int == c
                    } else {
                        s[s.len() - 1 - k] == '?'
                    },
                }
        },
{
    let op = crate::decode::step_fuel(fuel, 100, 100_000);
    lemma_read_spelled(h, node, 10_000, fuel, op, Seq::empty(), t, cs, b);
    let r = first(spelled(cs), 10_000);
    assert(Seq::<char>::empty() + r =~= r);
    assert forall|k: int| 0 <= k < r.len() implies match cs[k] {
        None => (#[trigger] r.reverse()[r.len() - 1 - k]) == '?',
        Some(c) => if 0 <= c < 0xd800 || 0xe000 <= c <= 0x10_ffff {
            r.reverse()[r.len() - 1 - k] as int == c
        } else {
            r.reverse()[r.len() - 1 - k] == '?'
        },
    } by {
        assert(r.reverse()[r.len() - 1 - k] == r[k]);
        assert(r[k] == crate::integer::char_for(cs[k]));
        if let Some(c) = cs[k] {
            crate::letters::lemma_char_for(c);
        }
    }
}

/// With too little fuel no digit is read and no character: a number is at most zero,
/// an integer is zero, and a string is empty.
pub proof fn lemma_little_fuel(h: Heap, node: u32, fuel: nat)
    ensures
        fuel < 40_000 ==> (h.decode_scott_num(node, fuel) matches Ok((_, Some(n))) ==> n == 0),
        fuel < 40_000 ==> (h.decode_integer(node, fuel) matches Ok((h1, n)) && h1 == h && n == Some(
            0i64,
        )),
        fuel < 600_000 ==> (h.decode_string(node, fuel) matches Ok((h1, s)) && h1 == h && s.len()
            == 0),
{
    reveal(Heap::decode_scott_num);
    reveal(Heap::decode_integer);
}

} // verus!
