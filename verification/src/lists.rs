//! What lists and instructions promise: reading back what was made gives the
//! same values.

use vstd::prelude::*;
use crate::heap::Heap;
use crate::integer::char_for;
use crate::stream::{Stream, StreamItem};
use crate::term::Term;

verus! {

broadcast use crate::heap::group_leads;

impl Term {
    /// A list: a chain of pairs of a value and the rest, that ends with false.
    pub open spec fn list(ts: Seq<Term>) -> Term
        decreases ts.len(),
    {
        if ts.len() == 0 {
            Term::no()
        } else {
            Term::pair(ts[0], Term::list(ts.skip(1)))
        }
    }

    /// A list of binary numbers.
    pub open spec fn numbers(ns: Seq<u64>) -> Term {
        Term::list(Seq::new(ns.len(), |k: int| Term::number(ns[k] as nat)))
    }

    /// A list of booleans.
    pub open spec fn booleans(bs: Seq<bool>) -> Term {
        Term::list(Seq::new(bs.len(), |k: int| Term::boolean(bs[k])))
    }
}

/// A list of numbers is its first number in front of the rest.
pub proof fn lemma_numbers(ns: Seq<u64>)
    ensures
        ns.len() == 0 ==> Term::numbers(ns) == Term::no(),
        ns.len() > 0 ==> Term::numbers(ns) == Term::pair(
            Term::number(ns[0] as nat),
            Term::numbers(ns.skip(1)),
        ),
{
    if ns.len() > 0 {
        assert(Seq::new(ns.len(), |k: int| Term::number(ns[k] as nat)).skip(1) =~= Seq::new(
            ns.skip(1).len(),
            |k: int| Term::number(ns.skip(1)[k] as nat),
        ));
    }
}

/// A list of booleans is its first boolean in front of the rest.
pub proof fn lemma_booleans(bs: Seq<bool>)
    ensures
        bs.len() == 0 ==> Term::booleans(bs) == Term::no(),
        bs.len() > 0 ==> Term::booleans(bs) == Term::pair(
            Term::boolean(bs[0]),
            Term::booleans(bs.skip(1)),
        ),
{
    if bs.len() > 0 {
        assert(Seq::new(bs.len(), |k: int| Term::boolean(bs[k])).skip(1) =~= Seq::new(
            bs.skip(1).len(),
            |k: int| Term::boolean(bs.skip(1)[k]),
        ));
    }
}

/// Making a list gives a node for it.
pub proof fn lemma_make_list(h: Heap, ns: Seq<u64>)
    requires
        h.wf(),
    ensures
        h.room() >= 1600 * ns.len() + 7 ==> h.make_list(ns) is Ok,
        h.make_list(ns) matches Ok((h1, i)) ==> h.builds(h1, 1600 * ns.len() + 7) && h1.live(i)
            && h1.term(i) == Term::numbers(ns),
    decreases ns.len(),
{
    lemma_numbers(ns);
    if ns.len() == 0 {
        crate::encode::lemma_make_bool(h, false);
    } else {
        let rest = ns.skip(1);
        lemma_make_list(h, rest);
        if let Ok((h1, r)) = h.make_list(rest) {
            let n = ns[0] as nat;
            crate::encode::lemma_make_scott_num(h1, n);
            vstd::arithmetic::power2::lemma2_to64();
            crate::laws::lemma_bit_length(n, 64);
            if let Ok((h2, c)) = h1.make_scott_num(n) {
                assert(h1.live(r));
                crate::encode::lemma_make_pair(h2, c, r);
                let k = 1600 * rest.len() + 7;
                let j = 23 + 24 * crate::encode::bit_length(n);
                crate::heap::lemma_builds_trans(h, h1, h2, k, j);
                if let Ok((h3, i)) = h2.build(crate::encode::Recipe::pair(c, r)) {
                    crate::heap::lemma_builds_trans(h, h2, h3, k + j, 17);
                }
            }
        }
    }
}

/// The first elements, as many as there may be.
pub open spec fn first<A>(s: Seq<A>, n: nat) -> Seq<A> {
    if s.len() <= n {
        s
    } else {
        s.take(n as int)
    }
}

/// A list cell comes apart into its value and the rest.
pub proof fn lemma_cell(h: Heap, cur: u32, fuel: nat, t: Term, x: Term, y: Term, b: nat)
    requires
        h.wf(),
        h.live(cur),
        t.reduces(h.term(cur)),
        t.is_not_false(b),
        t.has_parts(x, y, b),
        fuel > b,
        h.room() >= 13 + 9 * b,
    ensures
        h.cell(cur, fuel) matches Ok((h1, Some(c))) && h.leads_to(h1) && h1.live(c.head) && h1.live(
            c.tail,
        ) && x.reduces(h1.term(c.head)) && y.reduces(h1.term(c.tail)) && h1.room() + 13 + 9 * b
            >= h.room() && fuel - b <= c.head_fuel <= fuel && fuel - b <= c.tail_fuel <= fuel,
{
    reveal(Heap::cell);
    crate::meaning::lemma_read_not_false(h, cur, fuel, t, b);
    let (h1, _) = h.decode_bool(cur, fuel)->Ok_0;
    crate::laws::lemma_still(h, h1, cur, t);
    crate::meaning::lemma_read_fst(h1, cur, fuel, t, x, y, b);
    let (h2, (head, _)) = h1.pair_fst(cur, fuel)->Ok_0;
    crate::laws::lemma_still(h1, h2, cur, t);
    crate::meaning::lemma_read_snd(h2, cur, fuel, t, x, y, b);
    let (h3, (tail, _)) = h2.pair_snd(cur, fuel)->Ok_0;
    crate::laws::lemma_still(h2, h3, head, x);
    crate::select::lemma_pair_fst(h1, cur, fuel);
    crate::select::lemma_pair_snd(h2, cur, fuel);
}

/// The end of a list is recognized.
pub proof fn lemma_cell_end(h: Heap, cur: u32, fuel: nat, t: Term, b: nat)
    requires
        h.wf(),
        h.live(cur),
        t.reduces(h.term(cur)),
        t.says(false, b),
        fuel > b,
        h.room() >= 4 + 3 * b,
    ensures
        h.cell(cur, fuel) matches Ok((h1, None)) && h.leads_to(h1),
{
    reveal(Heap::cell);
    crate::meaning::lemma_read_bool(h, cur, fuel, t, false, b);
}

/// Enough fuel for reading `n` numbers, each part of which takes `b`
/// reductions.
pub open spec fn numbers_fuel(n: nat, b: nat) -> nat {
    800_020 + 4_000 * (b + 1) + 2 * b * n
}

/// Enough room for reading `n` numbers, each part of which takes `b`
/// reductions.
pub open spec fn numbers_room(n: nat, b: nat) -> nat {
    (17 + 12 * b) * (67 * n + 1)
}

/// What the end of a list takes.
proof fn lemma_end_need(b: nat)
    ensures
        numbers_room(0, b) == 17 + 12 * b,
        numbers_fuel(0, b) == 800_020 + 4_000 * (b + 1),
        bools_room(0, b) == 17 + 12 * b,
        2 * b * 0 == 0,
{
    let c = 17 + 12 * b;
    assert(c * (67 * 0 + 1) == c && c * (0 + 1) == c && 2 * b * 0 == 0) by (nonlinear_arith);
}

/// What the first number of a list takes.
pub(crate) proof fn lemma_numbers_need(n: nat, b: nat)
    requires
        n > 0,
    ensures
        numbers_fuel(n, b) == numbers_fuel((n - 1) as nat, b) + 2 * b,
        numbers_room(n, b) == numbers_room((n - 1) as nat, b) + 67 * (17 + 12 * b),
        numbers_room((n - 1) as nat, b) >= 17 + 12 * b,
        numbers_fuel((n - 1) as nat, b) >= 800_020 + 4_000 * (b + 1),
{
    let m = (n - 1) as nat;
    assert(2 * b * n == 2 * b * m + 2 * b && 2 * b * m >= 0) by (nonlinear_arith)
        requires
            n == m + 1,
    ;
    let c = 17 + 12 * b;
    assert(c * (67 * n + 1) == c * (67 * m + 1) + 67 * c && c * (67 * m + 1) >= c)
        by (nonlinear_arith)
        requires
            n == m + 1,
            c >= 0,
    ;
}

/// The first number of a list, and the list of the others.
proof fn lemma_first_number(h: Heap, cur: u32, remaining: nat, t: Term, ns: Seq<u64>, b: nat) -> (r:
    (Heap, crate::decode::CellView, Heap, Term))
    requires
        h.wf(),
        h.live(cur),
        t.reduces(h.term(cur)),
        t.lists(ns, b),
        ns.len() > 0,
        remaining >= numbers_fuel(ns.len(), b),
        h.room() >= numbers_room(ns.len(), b),
    ensures
        h.cell(cur, remaining / 20) matches Ok((h1, Some(c))) && h1 == r.0 && c == r.1,
        r.0.decode_scott_num(r.1.head, r.1.left_of(remaining, remaining / 20) / 20) matches Ok(
            (h2, n),
        ) && h2 == r.2 && n == Some(ns[0]),
        r.2.wf(),
        r.2.live(r.1.tail),
        r.3.reduces(r.2.term(r.1.tail)),
        r.3.lists(ns.skip(1), b),
        numbers_fuel((ns.len() - 1) as nat, b) <= r.1.left_of(remaining, remaining / 20)
            <= remaining,
        r.2.room() >= numbers_room((ns.len() - 1) as nat, b),
{
    lemma_numbers_need(ns.len(), b);
    let (x, y) = crate::meaning::lemma_list_parts(t, ns, b);
    lemma_cell(h, cur, remaining / 20, t, x, y, b);
    let (h1, c) = h.cell(cur, remaining / 20)->Ok_0;
    let cell = c->0;
    let rem = cell.left_of(remaining, remaining / 20);
    crate::meaning::lemma_number_fuel(rem / 20, b);
    crate::meaning::lemma_read_number(h1, cell.head, rem / 20, x, ns[0], b);
    let (h2, _) = h1.decode_scott_num(cell.head, rem / 20)->Ok_0;
    crate::laws::lemma_still(h1, h2, cell.tail, y);
    (h1, cell, h2, y)
}

proof fn lemma_number_list(
    h: Heap,
    cur: u32,
    remaining: nat,
    left: nat,
    items: Seq<u64>,
    t: Term,
    ns: Seq<u64>,
    b: nat,
)
    requires
        h.wf(),
        h.live(cur),
        t.reduces(h.term(cur)),
        t.lists(ns, b),
        remaining >= numbers_fuel(ns.len(), b),
        h.room() >= numbers_room(ns.len(), b),
    ensures
        h.number_list(cur, remaining, left, items) matches Ok((h1, r)) && r == items + first(ns, left),
    decreases ns.len(),
{
    if left == 0 {
        assert(items + first(ns, left) =~= items);
    } else if ns.len() == 0 {
        lemma_end_need(b);
        lemma_cell_end(h, cur, remaining / 20, t, b);
        assert(items + first(ns, left) =~= items);
    } else {
        let rest = ns.skip(1);
        let (h1, cell, h2, y) = lemma_first_number(h, cur, remaining, t, ns, b);
        let rem = cell.left_of(remaining, remaining / 20);
        lemma_number_list(h2, cell.tail, rem, (left - 1) as nat, items.push(ns[0]), y, rest, b);
        assert(items.push(ns[0]) + first(rest, (left - 1) as nat) =~= items + first(ns, left));
    }
}

/// Reading a list of numbers gives them in order, as many as there may be,
/// however the expression computes it: given fuel and room for its parts, each of
/// which takes `b` reductions at most.
pub proof fn lemma_decode_number_list(
    h: Heap,
    node: u32,
    fuel: nat,
    max: nat,
    t: Term,
    ns: Seq<u64>,
    b: nat,
)
    requires
        h.wf(),
        h.live(node),
        t.reduces(h.term(node)),
        t.lists(ns, b),
        fuel >= numbers_fuel(ns.len(), b),
        h.room() >= numbers_room(ns.len(), b),
    ensures
        h.number_list(node, fuel, max, Seq::empty()) matches Ok((h1, r)) && (ns.len() <= max ==> r
            == ns) && (ns.len() > max ==> r == ns.take(max as int)),
{
    lemma_number_list(h, node, fuel, max, Seq::empty(), t, ns, b);
    assert(Seq::<u64>::empty() + first(ns, max) =~= first(ns, max));
}

/// The stream of a list of numbers holds them all, in order: those below 256
/// as bytes, the others as what is too large. Then it ends. It does not matter
/// how the expression computes the list.
pub proof fn lemma_stream(h: Heap, s: Stream, t: Term, ns: Seq<u64>, b: nat)
    requires
        h.wf(),
        h.live(s.current),
        t.reduces(h.term(s.current)),
        t.lists(ns, b),
        s.remaining >= numbers_fuel(ns.len(), b),
        h.room() >= numbers_room(ns.len(), b),
    ensures
        h.stream_items(s, ns.len() + 1) matches Ok((h1, items)) && items == Seq::new(
            ns.len(),
            |k: int| crate::stream::stream_item(ns[k]),
        ).push(StreamItem::End),
    decreases ns.len(),
{
    let items = Seq::new(ns.len(), |k: int| crate::stream::stream_item(ns[k])).push(
        StreamItem::End,
    );
    let remaining = s.remaining as nat;
    if ns.len() == 0 {
        lemma_end_need(b);
        lemma_cell_end(h, s.current, remaining / 20, t, b);
        assert(seq![StreamItem::End] =~= items);
    } else {
        let rest = ns.skip(1);
        let n = ns[0];
        let (h1, cell, h2, y) = lemma_first_number(h, s.current, remaining, t, ns, b);
        let rem = cell.left_of(remaining, remaining / 20);
        let s1 = Stream { current: cell.tail, remaining: rem as u64 };
        lemma_stream(h2, s1, y, rest, b);
        assert(seq![crate::stream::stream_item(n)] + Seq::new(
            rest.len(),
            |k: int| crate::stream::stream_item(rest[k]),
        ).push(StreamItem::End) =~= items);
    }
}

/// A number below 256 is a byte on a stream, and any other is too large.
pub proof fn lemma_stream_item(n: u64)
    ensures
        n < 256 ==> (crate::stream::stream_item(n) matches StreamItem::Byte(x) && x == n),
        n >= 256 ==> crate::stream::stream_item(n) == StreamItem::TooLarge(n),
{
}

/// Taking an item from a stream takes at most a twentieth of the fuel for each part
/// of its cell. Where there is no item to take, it takes none.
pub proof fn lemma_stream_fuel(h: Heap, s: Stream)
    requires
        h.wf(),
        h.live(s.current),
    ensures
        h.stream_next(s) matches Ok((h1, (item, s1))) ==> {
            &&& s1.remaining <= s.remaining <= s1.remaining + 2 * (s.remaining / 20)
            &&& !(item is Byte || item is TooLarge) ==> s1 == s
            &&& item == StreamItem::Exhausted <==> s.remaining == 0
        },
{
    reveal(Heap::cell);
    let op = s.remaining as nat / 20;
    if let Ok((h1, b)) = h.decode_bool(s.current, op) {
        crate::select::lemma_decode_bool(h, s.current, op);
        assert(h1.live(s.current));
        crate::select::lemma_pair_fst(h1, s.current, op);
        if let Ok((h2, (head, f1))) = h1.pair_fst(s.current, op) {
            assert(h2.live(s.current));
            crate::select::lemma_pair_snd(h2, s.current, op);
        }
    }
}

/// A stream without fuel is at a stop, and so is one at the end of its list or
/// before an element that is no number: nothing is taken from it.
pub proof fn lemma_stream_stops(h: Heap, s: Stream, t: Term, x: Term, y: Term, b: nat)
    requires
        h.wf(),
        h.live(s.current),
        t.reduces(h.term(s.current)),
        s.remaining == 0 || s.remaining >= numbers_fuel(1, b),
        h.room() >= numbers_room(1, b),
    ensures
        s.remaining == 0 ==> h.stream_next(s) == Ok::<
            (Heap, (StreamItem, Stream)),
            crate::heap::AllocError,
        >((h, (StreamItem::Exhausted, s))),
        s.remaining > 0 && t.says(false, b) ==> (h.stream_next(s) matches Ok((h1, (item, s1)))
            && item == StreamItem::End && s1 == s),
        s.remaining > 0 && t.is_not_false(b) && t.has_parts(x, y, b) && x.is_no_number(b) ==> (
        h.stream_next(s) matches Ok((h1, (item, s1))) && item == StreamItem::NoNumber && s1 == s),
{
    lemma_numbers_need(1, b);
    lemma_end_need(b);
    let op = s.remaining as nat / 20;
    if s.remaining > 0 && t.says(false, b) {
        lemma_cell_end(h, s.current, op, t, b);
    }
    if s.remaining > 0 && t.is_not_false(b) && t.has_parts(x, y, b) && x.is_no_number(b) {
        lemma_cell(h, s.current, op, t, x, y, b);
        let (h1, c) = h.cell(s.current, op)->Ok_0;
        let rem = c->0.left_of(s.remaining as nat, op);
        crate::meaning::lemma_number_fuel(rem / 20, b);
        crate::readings::lemma_read_no_number(h1, c->0.head, rem / 20, x, b);
    }
}

/// Enough room for reading `n` booleans, each part of which takes `b`
/// reductions.
pub open spec fn bools_room(n: nat, b: nat) -> nat {
    (17 + 12 * b) * (n + 1)
}

/// What the first boolean of a list takes.
pub(crate) proof fn lemma_bools_need(n: nat, b: nat)
    requires
        n > 0,
    ensures
        2 * b * n == 2 * b * (n - 1) + 2 * b,
        2 * b * (n - 1) >= 0,
        bools_room(n, b) == bools_room((n - 1) as nat, b) + 17 + 12 * b,
        bools_room((n - 1) as nat, b) >= 17 + 12 * b,
{
    let m = (n - 1) as nat;
    assert(2 * b * n == 2 * b * m + 2 * b && 2 * b * m >= 0) by (nonlinear_arith)
        requires
            n == m + 1,
    ;
    let c = 17 + 12 * b;
    assert(c * (n + 1) == c * (m + 1) + c && c * (m + 1) >= c) by (nonlinear_arith)
        requires
            n == m + 1,
            c >= 0,
    ;
}

proof fn lemma_bool_list(
    h: Heap,
    cur: u32,
    remaining: nat,
    left: nat,
    items: Seq<bool>,
    t: Term,
    bs: Seq<bool>,
    b: nat,
)
    requires
        h.wf(),
        h.live(cur),
        t.reduces(h.term(cur)),
        t.lists_bools(bs, b),
        remaining >= 20 * (b + 1) + 2 * b * bs.len(),
        h.room() >= bools_room(bs.len(), b),
    ensures
        h.bool_list(cur, remaining, left, items) matches Ok((h1, r)) && r == items + first(bs, left),
    decreases bs.len(),
{
    if left == 0 {
        assert(items + first(bs, left) =~= items);
    } else if bs.len() == 0 {
        lemma_end_need(b);
        lemma_cell_end(h, cur, remaining / 20, t, b);
        assert(items + first(bs, left) =~= items);
    } else {
        lemma_bools_need(bs.len(), b);
        let rest = bs.skip(1);
        let (x, y) = crate::meaning::lemma_bools_parts(t, bs, b);
        lemma_cell(h, cur, remaining / 20, t, x, y, b);
        let (h1, c) = h.cell(cur, remaining / 20)->Ok_0;
        let cell = c->0;
        let rem = cell.left_of(remaining, remaining / 20);
        crate::meaning::lemma_read_bool(h1, cell.head, rem / 20, x, bs[0], b);
        let (h2, _) = h1.decode_bool(cell.head, rem / 20)->Ok_0;
        crate::laws::lemma_still(h1, h2, cell.tail, y);
        lemma_bool_list(h2, cell.tail, rem, (left - 1) as nat, items.push(bs[0]), y, rest, b);
        assert(items.push(bs[0]) + first(rest, (left - 1) as nat) =~= items + first(bs, left));
    }
}

/// Reading a list of booleans gives them in order, as many as there may be,
/// however the expression computes it: given fuel and room for its parts, each of
/// which takes `b` reductions at most.
pub proof fn lemma_decode_bool_list(
    h: Heap,
    node: u32,
    fuel: nat,
    max: nat,
    t: Term,
    bs: Seq<bool>,
    b: nat,
)
    requires
        h.wf(),
        h.live(node),
        t.reduces(h.term(node)),
        t.lists_bools(bs, b),
        fuel >= 20 * (b + 1) + 2 * b * bs.len(),
        h.room() >= bools_room(bs.len(), b),
    ensures
        h.bool_list(node, fuel, max, Seq::empty()) matches Ok((h1, r)) && (bs.len() <= max ==> r
            == bs) && (bs.len() > max ==> r == bs.take(max as int)),
{
    lemma_bool_list(h, node, fuel, max, Seq::empty(), t, bs, b);
    assert(Seq::<bool>::empty() + first(bs, max) =~= first(bs, max));
}

proof fn lemma_list_bits(
    h: Heap,
    cur: u32,
    left: nat,
    remaining: nat,
    op: nat,
    bits: Seq<bool>,
    t: Term,
    bs: Seq<bool>,
    b: nat,
)
    requires
        h.wf(),
        h.live(cur),
        t.reduces(h.term(cur)),
        t.lists_bools(bs, b),
        op > b,
        bs.len() > 0 ==> remaining >= 4 * op + 2 * b * (bs.len() - 1),
        h.room() >= bools_room(bs.len(), b),
    ensures
        h.list_bits(cur, left, remaining, op, bits) matches Ok((h1, Some(r))) && r == bits + first(
            bs,
            left,
        ) && h.leads_to(h1) && h1.room() + bools_room(bs.len(), b) >= h.room(),
    decreases bs.len(),
{
    crate::heap::lemma_leads_refl(h);
    lemma_end_need(b);
    if bs.len() > 0 {
        lemma_bools_need(bs.len(), b);
    }
    if left == 0 || remaining < op * 4 {
        assert(bits + first(bs, left) =~= bits);
    } else if bs.len() == 0 {
        crate::meaning::lemma_read_bool(h, cur, op, t, false, b);
        assert(bits + first(bs, left) =~= bits);
    } else {
        let rest = bs.skip(1);
        let (x, y) = crate::meaning::lemma_bools_parts(t, bs, b);
        crate::meaning::lemma_read_not_false(h, cur, op, t, b);
        let (h1, _) = h.decode_bool(cur, op)->Ok_0;
        crate::laws::lemma_still(h, h1, cur, t);
        crate::meaning::lemma_read_fst(h1, cur, op, t, x, y, b);
        let (h2, (head, f1)) = h1.pair_fst(cur, op)->Ok_0;
        crate::meaning::lemma_read_bool(h2, head, op, x, bs[0], b);
        let (h3, _) = h2.decode_bool(head, op)->Ok_0;
        crate::laws::lemma_still(h1, h3, cur, t);
        crate::meaning::lemma_read_snd(h3, cur, op, t, x, y, b);
        let (h4, (tail, f2)) = h3.pair_snd(cur, op)->Ok_0;
        let rem1 = crate::decode::minus(remaining, crate::decode::minus(op, f1));
        let rem2 = crate::decode::minus(rem1, crate::decode::minus(op, f2));
        if rest.len() > 0 {
            lemma_bools_need(rest.len(), b);
        }
        lemma_list_bits(h4, tail, (left - 1) as nat, rem2, op, bits.push(bs[0]), y, rest, b);
        assert(bits.push(bs[0]) + first(rest, (left - 1) as nat) =~= bits + first(bs, left));
    }
}

/// Reading a list of bits as an integer gives their value in two's complement,
/// however the expression computes it: given fuel and room for its parts, each of
/// which takes `b` reductions at most. Of more than 64 bits the first 64 count.
pub proof fn lemma_decode_integer(h: Heap, node: u32, fuel: nat, t: Term, bs: Seq<bool>, b: nat)
    requires
        h.wf(),
        h.live(node),
        t.reduces(h.term(node)),
        t.lists_bools(bs, b),
        crate::decode::step_fuel(fuel, 200, 10_000) > b,
        bs.len() > 0 ==> fuel >= 4 * crate::decode::step_fuel(fuel, 200, 10_000) + 2 * b * (
        bs.len() - 1),
        h.room() >= bools_room(bs.len(), b),
    ensures
        h.decode_integer(node, fuel) matches Ok((h1, Some(n))) && (bs.len() <= 64 ==> n
            == crate::integer::signed_value(bs)) && (bs.len() > 64 ==> n
            == crate::integer::signed_value(bs.take(64))) && h.leads_to(h1) && h1.room()
            + bools_room(bs.len(), b) >= h.room(),
{
    reveal(Heap::decode_integer);
    let op = crate::decode::step_fuel(fuel, 200, 10_000);
    lemma_list_bits(h, node, 64, fuel, op, Seq::empty(), t, bs, b);
    assert(Seq::<bool>::empty() + first(bs, 64) =~= first(bs, 64));
    crate::integer::lemma_signed_fits(first(bs, 64));
}

/// The characters of the codes, in their order.
pub open spec fn chars_of(ns: Seq<u64>) -> Seq<char> {
    Seq::new(ns.len(), |k: int| char_for(Some(crate::integer::wrap(ns[k]))))
}

/// Making a string of codes and reading it gives its characters, the
/// outermost last.
pub proof fn lemma_string_round_trip(h: Heap, fuel: nat, ns: Seq<u64>)
    requires
        h.wf(),
        ns.len() <= 10_000,
        ns.len() > 0 ==> fuel >= 600_000 + 20 * ns.len(),
        h.room() >= 10_000 * ns.len() + 200,
    ensures
        h.make_list(ns) matches Ok((h1, node)) && (h1.decode_string(node, fuel) matches Ok((h2, s))
            && s == chars_of(ns).reverse()),
{
    lemma_make_list(h, ns);
    let (h1, node) = h.make_list(ns)->Ok_0;
    crate::term::lemma_reduces_refl(h1.term(node));
    crate::meaning::lemma_numbers_list(ns);
    let n = ns.len();
    assert((17 + 12 * 9) * (67 * n + 1) == 8375 * n + 125 && 2 * 9 * (n - 1) == 18 * n - 18)
        by (nonlinear_arith);
    crate::meaning::lemma_read_string(h1, node, fuel, Term::numbers(ns), ns, 9);
}

/// Church numerals are weak head normal forms.
proof fn lemma_church_normal(n: nat)
    ensures
        Term::church(n).reaches(0, Term::church(n)),
{
    reveal_with_fuel(Term::step, 4);
}

/// An instruction is read as what it is, however the expression computes it: a
/// pair that takes one argument, of a tag and an operand; and the tag such a
/// pair of two that count.
pub proof fn lemma_read_instruction(
    h: Heap,
    current: u32,
    fuel: nat,
    t: Term,
    tag: Term,
    operand: Term,
    c1: Term,
    c2: Term,
    p1: u64,
    p2: u64,
    b: nat,
)
    requires
        h.wf(),
        h.live(current),
        t.reduces(h.term(current)),
        t.has_parts1(tag, operand, b),
        tag.has_parts1(c1, c2, b),
        c1.counts(p1 as nat, b),
        c2.counts(p2 as nat, b),
        fuel > b,
        h.room() >= 20 + 18 * b,
    ensures
        h.instruction(current, fuel) matches Ok((h1, i)) && i.p1 == Some(p1) && i.p2 == Some(p2)
            && h.leads_to(h1) && h1.live(i.operand) && operand.reduces(h1.term(i.operand))
            && tag.reduces(h1.term(i.tag)) && h1.room() + 20 + 18 * b >= h.room(),
{
    crate::meaning::lemma_read_fst1(h, current, fuel, t, tag, operand, b);
    let (h1, (n, _)) = h.pair1_fst(current, fuel)->Ok_0;
    crate::laws::lemma_still(h, h1, current, t);
    crate::meaning::lemma_read_snd1(h1, current, fuel, t, tag, operand, b);
    let (h2, (q, _)) = h1.pair1_snd(current, fuel)->Ok_0;
    crate::laws::lemma_still(h1, h2, n, tag);
    crate::meaning::lemma_read_fst1(h2, n, fuel, tag, c1, c2, b);
    let (h3, (n1, _)) = h2.pair1_fst(n, fuel)->Ok_0;
    crate::laws::lemma_still(h2, h3, n, tag);
    crate::meaning::lemma_read_snd1(h3, n, fuel, tag, c1, c2, b);
    let (h4, (n2, _)) = h3.pair1_snd(n, fuel)->Ok_0;
    crate::laws::lemma_still(h3, h4, n1, c1);
    crate::church::lemma_counts(c1, h4.term(n1), p1 as nat, b);
    crate::church::lemma_decode_church_num(h4, n1, fuel, p1, b);
    let (h5, _) = h4.decode_church_num(n1, fuel)->Ok_0;
    crate::laws::lemma_still(h4, h5, n2, c2);
    crate::church::lemma_counts(c2, h5.term(n2), p2 as nat, b);
    crate::church::lemma_decode_church_num(h5, n2, fuel, p2, b);
    let (h6, _) = h5.decode_church_num(n2, fuel)->Ok_0;
    crate::laws::lemma_still(h2, h6, q, operand);
    crate::laws::lemma_still(h3, h6, n, tag);
}

/// An instruction with the numerals `p1` and `p2` in its tag is read as such,
/// and its operand is the weak head normal form of the operand.
pub proof fn lemma_instruction(
    h: Heap,
    current: u32,
    fuel: nat,
    p1: u64,
    p2: u64,
    q: Term,
    k: nat,
    w: Term,
)
    requires
        h.wf(),
        h.live(current),
        Term::pair1(
            Term::pair1(Term::church(p1 as nat), Term::church(p2 as nat)),
            q,
        ).reduces(h.term(current)),
        q.reaches(k, w),
        fuel > 6 + k,
        fuel > 5 * p1 + 2,
        fuel > 5 * p2 + 2,
        h.room() >= 100 + 3 * k + 15 * p1 + 15 * p2,
    ensures
        h.instruction(current, fuel) matches Ok((h1, i)) && i.p1 == Some(p1) && i.p2 == Some(p2)
            && h.leads_to(h1) && h1.live(i.operand) && w.reduces(h1.term(i.operand)),
{
    let (c1, c2) = (Term::church(p1 as nat), Term::church(p2 as nat));
    let t = Term::pair1(c1, c2);
    let top = Term::pair1(t, q);
    lemma_church_normal(p1 as nat);
    lemma_church_normal(p2 as nat);
    assert(t.reaches(0, t)) by {
        reveal_with_fuel(Term::step, 4);
    }
    crate::laws::lemma_pair1_fst_law(h, current, fuel, t, q, 0, t);
    let (h1, (tag, _)) = h.pair1_fst(current, fuel)->Ok_0;
    crate::laws::lemma_still(h, h1, current, top);
    crate::laws::lemma_pair1_snd_law(h1, current, fuel, t, q, k, w);
    let (h2, (operand, _)) = h1.pair1_snd(current, fuel)->Ok_0;
    crate::laws::lemma_still(h1, h2, tag, t);
    crate::laws::lemma_pair1_fst_law(h2, tag, fuel, c1, c2, 0, c1);
    let (h3, (n1, _)) = h2.pair1_fst(tag, fuel)->Ok_0;
    crate::laws::lemma_still(h2, h3, tag, t);
    crate::laws::lemma_pair1_snd_law(h3, tag, fuel, c1, c2, 0, c2);
    let (h4, (n2, _)) = h3.pair1_snd(tag, fuel)->Ok_0;
    crate::laws::lemma_still(h3, h4, n1, c1);
    crate::church::lemma_church_round_trip(h4, n1, fuel, p1);
    let (h5, _) = h4.decode_church_num(n1, fuel)->Ok_0;
    crate::laws::lemma_still(h4, h5, n2, c2);
    crate::church::lemma_church_round_trip(h5, n2, fuel, p2);
    let (h6, _) = h5.decode_church_num(n2, fuel)->Ok_0;
    crate::laws::lemma_still(h2, h6, operand, w);
}

} // verus!
