//! What reading a value as a boolean or a number promises.

use vstd::prelude::*;
use crate::heap::Heap;
use crate::term::Term;
use crate::value::{PartItem, Value};

verus! {

broadcast use crate::heap::group_leads;

impl Term {
    /// The expression is no number: its first part, which would be its lowest
    /// digit, is no boolean, within `b` reductions.
    pub open spec fn is_no_number(self, b: nat) -> bool {
        exists|k: nat, x: Term|
            k <= b && #[trigger] Term::fst(self).reaches(k, x) && x.is_no_bool(b)
    }

    /// What the expression is, if it is looked at as a boolean first, and then
    /// as a number.
    pub open spec fn is_bool_or_number(self, v: Value, b: nat) -> bool {
        match v {
            Value::Boolean(x) => self.says(x, b),
            Value::Number(n) => self.is_no_bool(b) && self.denotes(n as nat, b),
            Value::Unknown => self.is_no_bool(b) && self.is_no_number(b),
        }
    }

    /// What the expression is, if it is looked at as a number first, and then
    /// as a boolean.
    pub open spec fn is_number_or_bool(self, v: Value, b: nat) -> bool {
        match v {
            Value::Number(n) => self.denotes(n as nat, b),
            Value::Boolean(x) => self.is_no_number(b) && self.says(x, b),
            Value::Unknown => self.is_no_number(b) && self.is_no_bool(b),
        }
    }
}

/// Enough fuel for reading a value whose parts take `b` reductions each.
pub open spec fn value_fuel(b: nat) -> nat {
    40_000 + 200 * (b + 1)
}

/// Enough room for reading such a value.
pub open spec fn value_room(b: nat) -> nat {
    1200 + 800 * b
}

/// Reduction does not make a number of what is none.
pub proof fn lemma_is_no_number(t: Term, u: Term, b: nat)
    requires
        t.is_no_number(b),
        t.reduces(u),
    ensures
        u.is_no_number(b),
{
    let (k, x) = choose|k: nat, x: Term|
        k <= b && #[trigger] Term::fst(t).reaches(k, x) && x.is_no_bool(b);
    crate::meaning::lemma_ask_reduces(t, u);
    let (k1, x1) = crate::term::lemma_reduces_reaches(Term::fst(t), Term::fst(u), k, x);
    crate::meaning::lemma_is_no_bool(x, x1, b);
}

/// Reduction does not change what an expression is.
pub proof fn lemma_is_number_or_bool(t: Term, u: Term, v: Value, b: nat)
    requires
        t.is_number_or_bool(v, b),
        t.reduces(u),
    ensures
        u.is_number_or_bool(v, b),
{
    match v {
        Value::Number(n) => {
            crate::meaning::lemma_denotes(t, u, n as nat, b);
        },
        Value::Boolean(x) => {
            lemma_is_no_number(t, u, b);
            crate::meaning::lemma_says(t, u, x, b);
        },
        Value::Unknown => {
            lemma_is_no_number(t, u, b);
            crate::meaning::lemma_is_no_bool(t, u, b);
        },
    }
}

/// The first part of what is no number is read, and is no boolean.
pub(crate) proof fn lemma_read_digit(h: Heap, node: u32, fuel: nat, t: Term, b: nat)
    requires
        h.wf(),
        h.live(node),
        t.reduces(h.term(node)),
        t.is_no_number(b),
        fuel > b,
        h.room() >= 8 + 6 * b,
    ensures
        h.pair_fst(node, fuel) matches Ok((h1, (r, _))) && (h1.decode_bool(r, fuel) matches Ok(
            (h2, c),
        ) && c is None && h.leads_to(h2) && h2.room() + 8 + 6 * b >= h.room()),
{
    let (k, x) = choose|k: nat, x: Term|
        k <= b && #[trigger] Term::fst(t).reaches(k, x) && x.is_no_bool(b);
    reveal(Heap::pair_fst);
    crate::select::lemma_apply_fst(h, node);
    let (h1, app) = h.apply_fst(node)->Ok_0;
    crate::meaning::lemma_ask_reduces(t, h.term(node));
    let (k1, x1) = crate::term::lemma_reduces_reaches(Term::fst(t), h1.term(app), k, x);
    crate::select::lemma_eval_reaches(h1, app, fuel, k1, x1);
    crate::select::lemma_eval(h1, app, fuel);
    let (h2, (r, _)) = h1.eval(app, fuel)->Ok_0;
    crate::term::lemma_reduces_trans(x, x1, h2.term(r));
    crate::meaning::lemma_read_no_bool(h2, r, fuel, x, b);
}

/// What is no number is not read as one.
pub proof fn lemma_read_no_number(h: Heap, node: u32, fuel: nat, t: Term, b: nat)
    requires
        h.wf(),
        h.live(node),
        t.reduces(h.term(node)),
        t.is_no_number(b),
        crate::decode::step_fuel(fuel, 200, 10_000) > b,
        h.room() >= 16 + 12 * b,
    ensures
        h.decode_scott_num(node, fuel) matches Ok((h1, r)) && r is None && h.leads_to(h1)
            && h1.room() + 16 + 12 * b >= h.room(),
{
    reveal(Heap::decode_scott_num);
    let op = crate::decode::step_fuel(fuel, 200, 10_000);
    crate::heap::lemma_leads_refl(h);
    lemma_read_digit(h, node, op, t, b);
    let (h1, _) = h.scott_bits(node, 64, fuel, op, Seq::empty())->Ok_0;
    crate::laws::lemma_still(h, h1, node, t);
    lemma_read_digit(h1, node, op, t, b);
}

/// Reading digits leaves the arena well formed.
proof fn lemma_scott_bits_leads(
    h: Heap,
    cur: u32,
    left: nat,
    remaining: nat,
    op: nat,
    bits: Seq<bool>,
)
    requires
        h.wf(),
        h.live(cur),
    ensures
        h.scott_bits(cur, left, remaining, op, bits) matches Ok((h1, _)) ==> h.leads_to(h1),
    decreases left,
{
    crate::heap::lemma_leads_refl(h);
    if left > 0 && remaining >= op * 4 {
        crate::select::lemma_pair_fst(h, cur, op);
        if let Ok((h1, (first, f1))) = h.pair_fst(cur, op) {
            crate::select::lemma_decode_bool(h1, first, op);
            if let Ok((h2, Some(bit))) = h1.decode_bool(first, op) {
                assert(h1.live(cur) && h2.live(cur));
                crate::select::lemma_pair_snd(h2, cur, op);
                if let Ok((h3, (second, f2))) = h2.pair_snd(cur, op) {
                    let rem1 = crate::decode::minus(remaining, crate::decode::minus(op, f1));
                    let rem2 = crate::decode::minus(rem1, crate::decode::minus(op, f2));
                    lemma_scott_bits_leads(
                        h3,
                        second,
                        (left - 1) as nat,
                        rem2,
                        op,
                        bits.push(true),
                    );
                    crate::select::lemma_decode_bool(h3, second, op);
                    if let Ok((h4, _)) = h3.decode_bool(second, op) {
                        assert(h3.live(second) && h4.live(second));
                        lemma_scott_bits_leads(
                            h4,
                            second,
                            (left - 1) as nat,
                            rem2,
                            op,
                            bits.push(false),
                        );
                    }
                }
            }
        }
    }
}

/// Reading a number leaves the arena well formed.
pub proof fn lemma_number_leads(h: Heap, node: u32, fuel: nat)
    requires
        h.wf(),
        h.live(node),
    ensures
        h.decode_scott_num(node, fuel) matches Ok((h1, _)) ==> h.leads_to(h1),
{
    reveal(Heap::decode_scott_num);
    let op = crate::decode::step_fuel(fuel, 200, 10_000);
    lemma_scott_bits_leads(h, node, 64, fuel, op, Seq::empty());
    if let Ok((h1, bits)) = h.scott_bits(node, 64, fuel, op, Seq::empty()) {
        assert(h1.live(node));
        crate::select::lemma_pair_fst(h1, node, op);
        if let Ok((h2, (fst, _))) = h1.pair_fst(node, op) {
            crate::select::lemma_decode_bool(h2, fst, op);
        }
    }
}

/// A value that is looked at as a boolean first is read as what it is, however
/// the expression computes it.
pub proof fn lemma_bool_or_number(h: Heap, node: u32, fuel: nat, t: Term, v: Value, b: nat)
    requires
        h.wf(),
        h.live(node),
        t.reduces(h.term(node)),
        t.is_bool_or_number(v, b),
        fuel >= value_fuel(b),
        h.room() >= value_room(b),
    ensures
        h.bool_or_number(node, fuel) matches Ok((h1, r)) && r == v && h.leads_to(h1) && h1.room()
            + value_room(b) >= h.room(),
{
    crate::meaning::lemma_number_fuel(fuel, b);
    match v {
        Value::Boolean(x) => {
            crate::meaning::lemma_read_bool(h, node, fuel, t, x, b);
        },
        Value::Number(n) => {
            crate::meaning::lemma_read_no_bool(h, node, fuel, t, b);
            let (h1, _) = h.decode_bool(node, fuel)->Ok_0;
            crate::laws::lemma_still(h, h1, node, t);
            crate::meaning::lemma_read_number(h1, node, fuel, t, n, b);
        },
        Value::Unknown => {
            crate::meaning::lemma_read_no_bool(h, node, fuel, t, b);
            let (h1, _) = h.decode_bool(node, fuel)->Ok_0;
            crate::laws::lemma_still(h, h1, node, t);
            lemma_read_no_number(h1, node, fuel, t, b);
        },
    }
}

/// A value that is looked at as a number first is read as what it is, however
/// the expression computes it.
pub proof fn lemma_number_or_bool(
    h: Heap,
    node: u32,
    number: nat,
    boolean: nat,
    t: Term,
    v: Value,
    b: nat,
)
    requires
        h.wf(),
        h.live(node),
        t.reduces(h.term(node)),
        t.is_number_or_bool(v, b),
        number >= value_fuel(b),
        boolean > b,
        h.room() >= value_room(b),
    ensures
        h.number_or_bool(node, number, boolean) matches Ok((h1, r)) && r == v && h.leads_to(h1)
            && h1.room() + value_room(b) >= h.room(),
{
    crate::meaning::lemma_number_fuel(number, b);
    match v {
        Value::Number(n) => {
            crate::meaning::lemma_read_number(h, node, number, t, n, b);
        },
        Value::Boolean(x) => {
            lemma_read_no_number(h, node, number, t, b);
            let (h1, _) = h.decode_scott_num(node, number)->Ok_0;
            crate::laws::lemma_still(h, h1, node, t);
            crate::meaning::lemma_read_bool(h1, node, boolean, t, x, b);
        },
        Value::Unknown => {
            lemma_read_no_number(h, node, number, t, b);
            let (h1, _) = h.decode_scott_num(node, number)->Ok_0;
            crate::laws::lemma_still(h, h1, node, t);
            crate::meaning::lemma_read_no_bool(h1, node, boolean, t, b);
        },
    }
}

/// The two parts of an item are read as what they are, the first one first.
pub proof fn lemma_read_parts(
    h: Heap,
    item: u32,
    fuel: nat,
    t: Term,
    x: Term,
    y: Term,
    v: Value,
    w: Value,
    b: nat,
)
    requires
        h.wf(),
        h.live(item),
        t.reduces(h.term(item)),
        t.has_parts1(x, y, b),
        x.is_bool_or_number(v, b),
        y.is_bool_or_number(w, b),
        fuel >= value_fuel(b) + 2 * b,
        500_000 >= value_fuel(b),
        h.room() >= 2 * value_room(b) + 6 + 6 * b,
    ensures
        h.read_parts(item, fuel) matches Ok((h1, (r, f))) && r == (v, w) && h.leads_to(h1) && f + 2
            * b >= fuel,
{
    reveal(Heap::read_parts);
    let limit = crate::value::PART_FUEL;
    crate::meaning::lemma_read_fst1(h, item, fuel, t, x, y, b);
    let (h1, (fst, f1)) = h.pair1_fst(item, fuel)->Ok_0;
    crate::laws::lemma_still(h, h1, item, t);
    crate::meaning::lemma_read_snd1(h1, item, f1, t, x, y, b);
    let (h2, (snd, f2)) = h1.pair1_snd(item, f1)->Ok_0;
    crate::laws::lemma_still(h1, h2, fst, x);
    lemma_bool_or_number(h2, fst, crate::value::at_most(f2, limit), x, v, b);
    let (h3, _) = h2.bool_or_number(fst, crate::value::at_most(f2, limit))->Ok_0;
    crate::laws::lemma_still(h2, h3, snd, y);
    lemma_bool_or_number(h3, snd, crate::value::at_most(f2, limit), y, w, b);
}

/// An item that is a boolean or a number ends the list; otherwise its first
/// part comes, read as what it is, and then its other part.
pub proof fn lemma_part_next(
    h: Heap,
    current: u32,
    fuel: nat,
    t: Term,
    u: Value,
    x: Term,
    y: Term,
    v: Value,
    b: nat,
)
    requires
        h.wf(),
        h.live(current),
        t.reduces(h.term(current)),
        t.is_bool_or_number(u, b),
        fuel >= value_fuel(b) + 2 * b,
        500_000 >= value_fuel(b),
        h.room() >= 2 * value_room(b) + 6 + 6 * b,
    ensures
        u !is Unknown ==> (h.part_next(current, fuel) matches Ok((h1, (r, f))) && r
            == PartItem::End(u) && f == fuel),
        u is Unknown && t.has_parts1(x, y, b) && x.is_bool_or_number(v, b) ==> (h.part_next(
            current,
            fuel,
        ) matches Ok((h1, (PartItem::Part { value, rest }, f))) && value == v && y.reduces(
            h1.term(rest),
        ) && f + 2 * b >= fuel),
{
    reveal(Heap::part_next);
    let limit = crate::value::PART_FUEL;
    lemma_bool_or_number(h, current, crate::value::at_most(fuel, limit), t, u, b);
    let (h1, _) = h.bool_or_number(current, crate::value::at_most(fuel, limit))->Ok_0;
    if u is Unknown && t.has_parts1(x, y, b) && x.is_bool_or_number(v, b) {
        crate::laws::lemma_still(h, h1, current, t);
        crate::meaning::lemma_read_fst1(h1, current, fuel, t, x, y, b);
        let (h2, (first, f1)) = h1.pair1_fst(current, fuel)->Ok_0;
        crate::laws::lemma_still(h1, h2, current, t);
        crate::meaning::lemma_read_snd1(h2, current, f1, t, x, y, b);
        let (h3, (rest, f2)) = h2.pair1_snd(current, f1)->Ok_0;
        crate::laws::lemma_still(h2, h3, first, x);
        lemma_bool_or_number(h3, first, crate::value::at_most(f2, limit), x, v, b);
        let (h4, _) = h3.bool_or_number(first, crate::value::at_most(f2, limit))->Ok_0;
        crate::laws::lemma_still(h3, h4, rest, y);
    }
}

} // verus!
