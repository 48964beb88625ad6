//! What integers and strings promise: the integer of bits in two's complement,
//! and the characters of codes.

use vstd::prelude::*;
use vstd::arithmetic::power2::pow2;
use crate::heap::Heap;
use crate::integer::NoteView;
use crate::term::Term;

verus! {

broadcast use crate::heap::group_leads;

/// The number of bits is the sum of the powers of two where a bit is set.
pub proof fn lemma_value_push(bits: Seq<bool>, bit: bool)
    ensures
        crate::decode::value(bits.push(bit)) == crate::decode::value(bits) + if bit {
            pow2(bits.len())
        } else {
            0
        },
    decreases bits.len(),
{
    let all = bits.push(bit);
    if bits.len() == 0 {
        vstd::arithmetic::power2::lemma2_to64();
        assert(all.skip(1) =~= Seq::empty());
        assert(crate::decode::value(all.skip(1)) == 0);
    } else {
        lemma_value_push(bits.skip(1), bit);
        assert(all.skip(1) =~= bits.skip(1).push(bit));
        vstd::arithmetic::power2::lemma_pow2_unfold(bits.len());
    }
}

/// The integer of `n` bits in two's complement: the number of the bits, less two
/// to the power of `n` if that is more than fits below the sign.
pub proof fn lemma_signed_value(bits: Seq<bool>)
    requires
        bits.len() > 0,
    ensures
        -pow2((bits.len() - 1) as nat) <= crate::integer::signed_value(bits) < pow2(
            (bits.len() - 1) as nat,
        ),
        crate::integer::signed_value(bits) == crate::decode::value(bits)
            || crate::integer::signed_value(bits) == crate::decode::value(bits) - pow2(bits.len()),
        crate::integer::signed_value(bits) < 0 <==> bits.last(),
{
    let low = bits.drop_last();
    assert(bits =~= low.push(bits.last()));
    lemma_value_push(low, bits.last());
    crate::decode::lemma_value_bound(low);
    vstd::arithmetic::power2::lemma_pow2_unfold(bits.len());
    vstd::arithmetic::power2::lemma_pow2_pos(low.len());
}

/// The character of a code has that code, where there is one; otherwise it is a
/// question mark.
pub proof fn lemma_char_for(code: i64)
    ensures
        0 <= code < 0xd800 || 0xe000 <= code <= 0x10_ffff ==> crate::integer::char_for(
            Some(code),
        ) as int == code,
        code < 0 || 0xd800 <= code < 0xe000 || code > 0x10_ffff ==> crate::integer::char_for(
            Some(code),
        ) == '?',
        crate::integer::char_for(None) == '?',
{
}

/// A word as a signed one differs from it by two to the power of 64, or not at
/// all.
pub proof fn lemma_wrap(n: u64)
    ensures
        n <= i64::MAX ==> crate::integer::wrap(n) == n,
        n > i64::MAX ==> crate::integer::wrap(n) == n - 0x1_0000_0000_0000_0000,
{
}

/// The number is the code of a character.
pub open spec fn is_code(n: u64) -> bool {
    n < 0xd800 || 0xe000 <= n <= 0x10_ffff
}

/// Reading a string gives a character for each code of the list, the outermost
/// last: the character with that code, or a question mark where the number is no
/// code.
pub proof fn lemma_string(h: Heap, node: u32, fuel: nat, t: Term, ns: Seq<u64>, b: nat)
    requires
        h.wf(),
        h.live(node),
        t.reduces(h.term(node)),
        t.lists(ns, b),
        ns.len() <= 10_000,
        b <= 1_000,
        ns.len() > 0 ==> fuel >= 6 * crate::decode::step_fuel(fuel, 100, 100_000) + 2 * b * (
        ns.len() - 1),
        h.room() >= (17 + 12 * b) * (67 * ns.len() + 1),
    ensures
        h.decode_string(node, fuel) matches Ok((h1, s)) && {
            &&& s.len() == ns.len()
            &&& forall|k: int|
                0 <= k < ns.len() ==> if is_code(ns[k]) {
                    (#[trigger] s[ns.len() - 1 - k]) as int == ns[k]
                } else {
                    s[ns.len() - 1 - k] == '?'
                }
        },
{
    crate::meaning::lemma_read_string(h, node, fuel, t, ns, b);
    let (h1, s) = h.decode_string(node, fuel)->Ok_0;
    assert forall|k: int| 0 <= k < ns.len() implies if is_code(ns[k]) {
        (#[trigger] s[ns.len() - 1 - k]) as int == ns[k]
    } else {
        s[ns.len() - 1 - k] == '?'
    } by {
        lemma_wrap(ns[k]);
        lemma_char_for(crate::integer::wrap(ns[k]));
        assert(s[ns.len() - 1 - k] == crate::lists::chars_of(ns)[k]);
    }
}

/// The code of a character is the number that the expression is; or else, where
/// it is a list of bits and no number, the integer of the bits.
pub proof fn lemma_char_code(
    h: Heap,
    node: u32,
    fuel: nat,
    t: Term,
    n: u64,
    bs: Seq<bool>,
    b: nat,
)
    requires
        h.wf(),
        h.live(node),
        t.reduces(h.term(node)),
        fuel >= crate::readings::value_fuel(b) + 2 * b * 64,
        bs.len() <= 64,
        h.room() >= crate::readings::value_room(b) + crate::lists::bools_room(64, b),
    ensures
        t.denotes(n as nat, b) ==> (h.char_code(node, fuel) matches Ok((_, c)) && c == Some(
            crate::integer::wrap(n),
        )),
        t.is_no_number(b) && t.lists_bools(bs, b) ==> (h.char_code(node, fuel) matches Ok(
            (_, Some(c)),
        ) && c == crate::integer::signed_value(bs)),
{
    let op = crate::decode::step_fuel(fuel, 200, 10_000);
    assert(2 * b * 64 == 128 * b);
    crate::meaning::lemma_number_fuel(fuel, b);
    assert(crate::lists::bools_room(bs.len(), b) <= crate::lists::bools_room(64, b)) by {
        let c = 17 + 12 * b;
        assert(c * (bs.len() + 1) <= c * (64 + 1)) by (nonlinear_arith)
            requires
                bs.len() <= 64,
                c >= 0,
        ;
    }
    if t.denotes(n as nat, b) {
        crate::meaning::lemma_read_number(h, node, fuel, t, n, b);
    }
    if t.is_no_number(b) && t.lists_bools(bs, b) {
        crate::readings::lemma_read_no_number(h, node, fuel, t, b);
        let (h1, _) = h.decode_scott_num(node, fuel)->Ok_0;
        crate::laws::lemma_still(h, h1, node, t);
        if bs.len() > 0 {
            assert(2 * b * (bs.len() - 1) <= 126 * b) by (nonlinear_arith)
                requires
                    1 <= bs.len() <= 64,
                    b >= 0,
            ;
        }
        crate::lists::lemma_decode_integer(h1, node, fuel, t, bs, b);
    }
}

/// The note on a character holds the number, if it is one, and its code: that of the
/// number, or else that of the integer of its bits, or none. Its text tells it.
pub proof fn lemma_char_note(
    h: Heap,
    node: u32,
    fuel: nat,
    shown: bool,
    t: Term,
    n: u64,
    bs: Seq<bool>,
    b: nat,
)
    requires
        h.wf(),
        h.live(node),
        t.reduces(h.term(node)),
        fuel >= crate::readings::value_fuel(b),
        bs.len() < 64,
        h.room() >= 2400 + 1700 * b,
    ensures
        h.char_note(node, fuel, shown) matches Ok((_, r)) ==> {
            &&& r.text is Some <==> shown
            &&& r.text matches Some(s) ==> t.tells(s)
            &&& t.denotes(n as nat, b) ==> r.number == Some(n) && r.code == Some(
                crate::integer::wrap(n),
            )
            &&& t.is_no_number(b) ==> r.number is None
            &&& t.is_no_number(b) && t.lists_bools(bs, b) ==> (r.code matches Some(c) && c
                == crate::integer::signed_value(bs))
            &&& t.is_no_number(b) && t.lists_some_bools(bs, b) ==> r.code is None
        },
{
    crate::shown::lemma_tells(h, node, t);
    crate::meaning::lemma_number_fuel(fuel, b);
    let c = 17 + 12 * b;
    let l = bs.len();
    assert(c * 66 == 1122 + 792 * b && c * (64 + 1) == 1105 + 780 * b && c * (l + 1) <= c * (64
        + 1)) by (nonlinear_arith)
        requires
            c == 17 + 12 * b,
            l < 64,
            b >= 0,
    ;
    if l > 0 {
        assert(2 * b * (l - 1) <= 126 * b) by (nonlinear_arith)
            requires
                1 <= l <= 64,
                b >= 0,
        ;
    }
    if t.denotes(n as nat, b) {
        crate::meaning::lemma_read_number(h, node, fuel, t, n, b);
    }
    if t.is_no_number(b) {
        crate::readings::lemma_read_no_number(h, node, fuel, t, b);
        let (h1, _) = h.decode_scott_num(node, fuel)->Ok_0;
        crate::laws::lemma_still(h, h1, node, t);
        if t.lists_bools(bs, b) {
            crate::lists::lemma_decode_integer(h1, node, fuel, t, bs, b);
        }
        if t.lists_some_bools(bs, b) {
            crate::partial::lemma_no_integer(h1, node, fuel, t, bs, b);
        }
    }
}

/// The notes on the characters of a string are on its codes, the outermost first:
/// each is the number that was read, and its code. The expressions of the first
/// five are noted, and of no other.
proof fn lemma_list_notes(
    h: Heap,
    cur: u32,
    left: nat,
    remaining: nat,
    op: nat,
    notes: Seq<NoteView>,
    t: Term,
    ns: Seq<u64>,
    b: nat,
)
    requires
        h.wf(),
        h.live(cur),
        t.reduces(h.term(cur)),
        t.lists(ns, b),
        ns.len() <= left,
        op >= 100_000,
        b <= 1_000,
        ns.len() > 0 ==> remaining >= 6 * op + 2 * b * (ns.len() - 1),
        h.room() >= (17 + 12 * b) * (67 * ns.len() + 1),
    ensures
        h.list_notes(cur, left, remaining, op, notes) matches Ok((h1, r)) && r.len() == notes.len()
            + ns.len() && notes.is_prefix_of(r) && forall|k: int|
            0 <= k < ns.len() ==> (#[trigger] r[notes.len() + k]).number == Some(ns[k]) && r[
            notes.len() + k].code == Some(crate::integer::wrap(ns[k])) && (r[notes.len()
                + k].text is Some <==> notes.len() + k < 5),
    decreases ns.len(),
{
    let cost = 17 + 12 * b;
    let l = ns.len();
    assert(cost * (67 * l + 1) == 67 * (cost * l) + cost && cost * l >= 0) by (nonlinear_arith)
        requires
            cost >= 0,
            l >= 0,
    ;
    if left == 0 || remaining < op * 6 {
        if l > 0 {
            assert(2 * b * (l - 1) >= 0) by (nonlinear_arith)
                requires
                    b >= 0,
                    l >= 1,
            ;
        }
    } else if l == 0 {
        crate::meaning::lemma_read_bool(h, cur, op, t, false, b);
    } else {
        let rest = ns.skip(1);
        let n = ns[0];
        let (x, y) = crate::meaning::lemma_list_parts(t, ns, b);
        assert(cost * l == cost * rest.len() + cost) by (nonlinear_arith)
            requires
                l == rest.len() + 1,
        ;
        assert(cost * rest.len() >= 0) by (nonlinear_arith)
            requires
                cost >= 0,
        ;
        assert(cost * (67 * rest.len() + 1) == 67 * (cost * rest.len()) + cost)
            by (nonlinear_arith);
        crate::meaning::lemma_read_not_false(h, cur, op, t, b);
        let (h1, _) = h.decode_bool(cur, op)->Ok_0;
        crate::laws::lemma_still(h, h1, cur, t);
        crate::meaning::lemma_read_fst(h1, cur, op, t, x, y, b);
        let (h2, (val, f1)) = h1.pair_fst(cur, op)->Ok_0;
        crate::laws::lemma_still(h1, h2, cur, t);
        crate::meaning::lemma_read_snd(h2, cur, op, t, x, y, b);
        let (h3, (prev, f2)) = h2.pair_snd(cur, op)->Ok_0;
        crate::laws::lemma_still(h2, h3, val, x);
        crate::meaning::lemma_read_number(h3, val, op * 3, x, n, b);
        let (h4, _) = h3.decode_scott_num(val, op * 3)->Ok_0;
        crate::laws::lemma_still(h3, h4, prev, y);
        let rem1 = crate::decode::minus(remaining, crate::decode::minus(op, f1));
        let rem2 = crate::decode::minus(rem1, crate::decode::minus(op, f2));
        if rest.len() > 0 {
            assert(2 * b * (l - 1) == 2 * b * (rest.len() - 1) + 2 * b) by (nonlinear_arith)
                requires
                    l == rest.len() + 1,
            ;
        }
        let shown = notes.len() < crate::integer::NOTED_CHARS;
        let (h5, note) = h3.char_note(val, op * 3, shown)->Ok_0;
        assert(h5 == h4);
        let more = notes.push(note);
        lemma_list_notes(h4, prev, (left - 1) as nat, rem2, op, more, y, rest, b);
        let (h6, r) = h4.list_notes(prev, (left - 1) as nat, rem2, op, more)->Ok_0;
        assert(more[notes.len() as int] == r[notes.len() as int]);
        assert forall|k: int| 0 <= k < ns.len() implies (#[trigger] r[notes.len() + k]).number
            == Some(ns[k]) && r[notes.len() + k].code == Some(crate::integer::wrap(ns[k])) && (r[
        notes.len() + k].text is Some <==> notes.len() + k < 5) by {
            if k > 0 {
                assert(r[more.len() + (k - 1)].number == Some(rest[k - 1]));
            }
        }
        assert forall|k: int| 0 <= k < notes.len() implies notes[k] == r[k] by {
            assert(more[k] == r[k]);
        }
        assert(notes.is_prefix_of(r));
    }
}

/// How a string was read: of each code of the list, the outermost first, the
/// number and the code that were read, and of the first five the expression.
pub proof fn lemma_string_notes(h: Heap, node: u32, fuel: nat, t: Term, ns: Seq<u64>, b: nat)
    requires
        h.wf(),
        h.live(node),
        t.reduces(h.term(node)),
        t.lists(ns, b),
        ns.len() <= 10_000,
        b <= 1_000,
        ns.len() > 0 ==> fuel >= 6 * crate::decode::step_fuel(fuel, 100, 100_000) + 2 * b * (
        ns.len() - 1),
        h.room() >= (17 + 12 * b) * (67 * ns.len() + 1),
    ensures
        h.string_notes(node, fuel) matches Ok((h1, r)) && r.len() == ns.len() && forall|k: int|
            0 <= k < ns.len() ==> (#[trigger] r[k]).number == Some(ns[k]) && r[k].code == Some(
                crate::integer::wrap(ns[k]),
            ) && (r[k].text is Some <==> k < 5),
{
    let op = crate::decode::step_fuel(fuel, 100, 100_000);
    lemma_list_notes(h, node, 10_000, fuel, op, Seq::empty(), t, ns, b);
    let (h1, r) = h.string_notes(node, fuel)->Ok_0;
    assert forall|k: int| 0 <= k < ns.len() implies (#[trigger] r[k]).number == Some(ns[k])
        && r[k].code == Some(crate::integer::wrap(ns[k])) && (r[k].text is Some <==> k < 5) by {
        assert(r[Seq::<NoteView>::empty().len() + k].number == Some(ns[k]));
    }
}

} // verus!
