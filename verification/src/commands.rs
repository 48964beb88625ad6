//! What carrying out instructions promises: what a program asks for, what comes
//! next, and what a list holds that it writes.

use vstd::prelude::*;
use crate::heap::Heap;
use crate::io::{Action, Convention, ElementView, Instruction, Move, Then};
use crate::search::Order;
use crate::term::Term;

verus! {

broadcast use crate::heap::group_leads;

/// What an instruction asks for, by its numerals: zero halts, one writes an
/// integer, a string, an image, or something else, two reads, and anything else
/// is unknown.
pub proof fn lemma_action(ins: Instruction)
    ensures
        ins.action_of() == Action::Halt <==> ins.p1 == Some(0u64),
        ins.action_of() == Action::WriteInteger <==> ins.p1 == Some(1u64) && ins.p2 == Some(0u64),
        ins.action_of() == Action::WriteString <==> ins.p1 == Some(1u64) && ins.p2 == Some(1u64),
        ins.action_of() == Action::WriteImage <==> ins.p1 == Some(1u64) && ins.p2 == Some(2u64),
        ins.action_of() == Action::WriteOther <==> ins.p1 == Some(1u64) && (ins.p2 matches Some(q)
            ==> q > 2),
        ins.action_of() == Action::Read <==> ins.p1 == Some(2u64),
        ins.action_of() == Action::Unknown <==> (ins.p1 matches Some(p) && p > 2),
        ins.action_of() == Action::NoNumeral <==> ins.p1 is None,
{
}

/// An instruction that halts or is none ends the run. After any other comes the
/// next one, unless a hundred were carried out.
pub proof fn lemma_move(step: u32, ins: Instruction)
    ensures
        crate::io::move_of(step, ins) == (Move {
            action: ins.action_of(),
            then: if ins.p1 != Some(1u64) && ins.p1 != Some(2u64) {
                Then::End
            } else if step >= 100 {
                Then::TooMany
            } else {
                Then::Step((step + 1) as u32)
            },
        }),
{
    lemma_action(ins);
}

/// An expression that is an instruction is read as one that asks for what its
/// numerals say, with its operand, however the expression computes it.
pub proof fn lemma_asks(h: Heap, current: u32, fuel: nat, t: Term, o: Order, b: nat)
    requires
        h.wf(),
        h.live(current),
        t.reduces(h.term(current)),
        t.orders(o, b),
        fuel > b,
        h.room() >= 20 + 18 * b,
    ensures
        h.instruction(current, fuel) matches Ok((h1, i)) && {
            &&& h.leads_to(h1)
            &&& h1.live(i.operand)
            &&& o.operand.reduces(h1.term(i.operand))
            &&& i.action_of() == Action::Halt <==> o.p1 == 0
            &&& i.action_of() == Action::WriteInteger <==> o.p1 == 1 && o.p2 == 0
            &&& i.action_of() == Action::WriteString <==> o.p1 == 1 && o.p2 == 1
            &&& i.action_of() == Action::WriteImage <==> o.p1 == 1 && o.p2 == 2
            &&& i.action_of() == Action::WriteOther <==> o.p1 == 1 && o.p2 > 2
            &&& i.action_of() == Action::Read <==> o.p1 == 2
            &&& i.action_of() == Action::Unknown <==> o.p1 > 2
        },
{
    crate::lists::lemma_read_instruction(
        h,
        current,
        fuel,
        t,
        o.tag,
        o.operand,
        o.c1,
        o.c2,
        o.p1,
        o.p2,
        b,
    );
    let (h1, i) = h.instruction(current, fuel)->Ok_0;
    lemma_action(i);
}

/// What an instruction writes is the first part of its operand, and what comes
/// then is the second part.
pub proof fn lemma_output_parts(
    h: Heap,
    operand: u32,
    fuel: nat,
    t: Term,
    data: Term,
    next: Term,
    b: nat,
)
    requires
        h.wf(),
        h.live(operand),
        t.reduces(h.term(operand)),
        t.has_parts1(data, next, b),
        fuel > b,
        h.room() >= 6 + 6 * b,
    ensures
        h.output_parts(operand, fuel) matches Ok((h1, (x, y))) && h.leads_to(h1) && h1.live2(x, y)
            && data.reduces(h1.term(x)) && next.reduces(h1.term(y)),
{
    crate::meaning::lemma_read_fst1(h, operand, fuel, t, data, next, b);
    let (h1, (x, _)) = h.pair1_fst(operand, fuel)->Ok_0;
    crate::laws::lemma_still(h, h1, operand, t);
    crate::meaning::lemma_read_snd1(h1, operand, fuel, t, data, next, b);
    let (h2, (y, _)) = h1.pair1_snd(operand, fuel)->Ok_0;
    crate::laws::lemma_still(h1, h2, x, data);
}

/// After an instruction that reads comes what its operand gives for the input.
pub proof fn lemma_resume(h: Heap, operand: u32, input: u32, fuel: nat, k: nat, w: Term)
    requires
        h.wf(),
        h.live(operand),
        h.live(input),
    ensures
        h.resume(operand, input, fuel) matches Ok((h1, (r, f))) ==> h.leads_to(h1) && h1.live(r) && f
            <= fuel && Term::app(h.term(operand), h.term(input)).reduces(h1.term(r)),
        Term::app(h.term(operand), h.term(input)).reaches(k, w) && fuel > k && h.room() >= 1 + 3 * k
            ==> (h.resume(operand, input, fuel) matches Ok((h1, (r, f))) && f + k >= fuel
            && w.reduces(h1.term(r))),
{
    crate::select::lemma_apply(h, operand, input);
    if let Ok((h1, app)) = h.apply(operand, input) {
        crate::select::lemma_eval(h1, app, fuel);
        if Term::app(h.term(operand), h.term(input)).reaches(k, w) && fuel > k && h.room() >= 1 + 3
            * k {
            crate::select::lemma_eval_reaches(h1, app, fuel, k, w);
        }
    }
}

/// The limit is what was asked for, as far as an arena can have so many nodes;
/// otherwise eight times the nodes there are, and fifty million more at least,
/// as far as an arena can have so many.
pub proof fn lemma_io_limit(start: nat, asked: Option<usize>)
    ensures
        asked matches Some(l) ==> {
            let r = crate::io::io_limit_of(start, asked);
            &&& l == 0 ==> r == 1
            &&& 1 <= l <= 1_900_000_000 ==> r == l
            &&& l > 1_900_000_000 ==> r == crate::heap::ARENA_HARD_LIMIT
        },
        asked is None ==> {
            let r = crate::io::io_limit_of(start, asked);
            &&& r <= 1_900_000_000
            &&& r < 1_900_000_000 ==> r >= 8 * start && r >= start + 50_000_000
            &&& r == 1_900_000_000 || r == 8 * start || r == start + 50_000_000
            &&& 8 * start <= 1_900_000_000 && start + 50_000_000
                <= 1_900_000_000 ==> r == 8 * start || r == start + 50_000_000
        },
{
}

impl Term {
    /// The expression is a list of numbers whose cells hold the value and the
    /// rest in the order of the convention. Each part takes `b` reductions at
    /// most.
    pub open spec fn lists_by(self, conv: Convention, ns: Seq<u64>, b: nat) -> bool
        decreases ns.len(),
    {
        if ns.len() == 0 {
            self.says(false, b)
        } else {
            self.is_not_false(b) && exists|x: Term, y: Term|
                #![trigger self.has_parts(x, y, b)]
                match conv {
                    Convention::ValueFirst => self.has_parts(x, y, b) && x.denotes(ns[0] as nat, b)
                        && y.lists_by(conv, ns.skip(1), b),
                    Convention::RestFirst => self.has_parts(x, y, b) && y.denotes(ns[0] as nat, b)
                        && x.lists_by(conv, ns.skip(1), b),
                }
        }
    }
}

/// Reading bits of a list leaves the arena well formed.
proof fn lemma_list_bits_leads(
    h: Heap,
    cur: u32,
    left: nat,
    remaining: nat,
    op: nat,
    bits: Seq<bool>,
)
    requires
        h.wf(),
        h.live(cur),
    ensures
        h.list_bits(cur, left, remaining, op, bits) matches Ok((h1, _)) ==> h.leads_to(h1),
    decreases left,
{
    crate::heap::lemma_leads_refl(h);
    if left > 0 && remaining >= op * 4 {
        crate::select::lemma_decode_bool(h, cur, op);
        if let Ok((h1, _)) = h.decode_bool(cur, op) {
            assert(h1.live(cur));
            crate::select::lemma_pair_fst(h1, cur, op);
            if let Ok((h2, (first, f1))) = h1.pair_fst(cur, op) {
                crate::select::lemma_decode_bool(h2, first, op);
                if let Ok((h3, Some(bit))) = h2.decode_bool(first, op) {
                    assert(h2.live(cur) && h3.live(cur));
                    crate::select::lemma_pair_snd(h3, cur, op);
                    if let Ok((h4, (rest, f2))) = h3.pair_snd(cur, op) {
                        let rem1 = crate::decode::minus(remaining, crate::decode::minus(op, f1));
                        let rem2 = crate::decode::minus(rem1, crate::decode::minus(op, f2));
                        lemma_list_bits_leads(
                            h4,
                            rest,
                            (left - 1) as nat,
                            rem2,
                            op,
                            bits.push(bit),
                        );
                    }
                }
            }
        }
    }
}

/// Reading an integer leaves the arena well formed.
pub proof fn lemma_integer_leads(h: Heap, node: u32, fuel: nat)
    requires
        h.wf(),
        h.live(node),
    ensures
        h.decode_integer(node, fuel) matches Ok((h1, _)) ==> h.leads_to(h1),
{
    reveal(Heap::decode_integer);
    let op = crate::decode::step_fuel(fuel, 200, 10_000);
    lemma_list_bits_leads(h, node, 64, fuel, op, Seq::empty());
}

/// The parts of a list cell, in the order of the convention.
proof fn lemma_cell_parts(
    h: Heap,
    conv: Convention,
    cur: u32,
    fuel: nat,
    t: Term,
    x: Term,
    y: Term,
    b: nat,
)
    requires
        h.wf(),
        h.live(cur),
        t.reduces(h.term(cur)),
        t.has_parts(x, y, b),
        fuel > b,
        h.room() >= 9 + 6 * b,
    ensures
        h.cell_parts(conv, cur, fuel) matches Ok((h1, (value, rest))) && h.leads_to(h1)
            && h1.live2(value, rest) && match conv {
            Convention::ValueFirst => x.reduces(h1.term(value)) && y.reduces(h1.term(rest)),
            Convention::RestFirst => y.reduces(h1.term(value)) && x.reduces(h1.term(rest)),
        } && h1.room() + 9 + 6 * b >= h.room(),
{
    match conv {
        Convention::ValueFirst => {
            crate::meaning::lemma_read_fst(h, cur, fuel, t, x, y, b);
            let (h1, (v, _)) = h.pair_fst(cur, fuel)->Ok_0;
            crate::laws::lemma_still(h, h1, cur, t);
            crate::meaning::lemma_read_snd(h1, cur, fuel, t, x, y, b);
            let (h2, _) = h1.pair_snd(cur, fuel)->Ok_0;
            crate::laws::lemma_still(h1, h2, v, x);
        },
        Convention::RestFirst => {
            crate::meaning::lemma_read_snd(h, cur, fuel, t, x, y, b);
            let (h1, (v, _)) = h.pair_snd(cur, fuel)->Ok_0;
            crate::laws::lemma_still(h, h1, cur, t);
            crate::meaning::lemma_read_fst(h1, cur, fuel, t, x, y, b);
            let (h2, _) = h1.pair_fst(cur, fuel)->Ok_0;
            crate::laws::lemma_still(h1, h2, v, y);
        },
    }
}

/// Scanning a list of numbers gives the numbers in their order, `left` of them at
/// most, and says whether the end came before that; as far as fuel and room
/// allow.
pub proof fn lemma_scan(
    h: Heap,
    conv: Convention,
    cur: u32,
    left: nat,
    fuel: nat,
    items: Seq<ElementView>,
    t: Term,
    ns: Seq<u64>,
    b: nat,
)
    requires
        h.wf(),
        h.live(cur),
        t.reduces(h.term(cur)),
        t.lists_by(conv, ns, b),
        fuel >= crate::readings::value_fuel(b),
    ensures
        h.scan(conv, cur, left, fuel, items) matches Ok((h1, (r, ended))) ==> h1.room()
            <= h.room() && (h1.room() >= crate::readings::value_room(b) ==> {
            &&& ended == (ns.len() < left)
            &&& r.len() == items.len() + if ns.len() < left {
                ns.len()
            } else {
                left
            }
            &&& items.is_prefix_of(r)
            &&& forall|k: int|
                0 <= k < r.len() - items.len() ==> (#[trigger] r[items.len() + k]).number == Some(
                    ns[k],
                )
        }),
    decreases left, 1nat,
{
    if left > 0 {
        crate::select::lemma_decode_bool(h, cur, fuel);
        crate::meaning::lemma_number_fuel(fuel, b);
        if let Ok((h1, _)) = h.decode_bool(cur, fuel) {
            if ns.len() == 0 {
                if h.room() >= crate::readings::value_room(b) {
                    crate::meaning::lemma_read_bool(h, cur, fuel, t, false, b);
                } else {
                    lemma_scan_room(h, conv, cur, left, fuel, items);
                }
            } else {
                lemma_scan_room(h, conv, cur, left, fuel, items);
                if let Ok((hn, _)) = h.scan(conv, cur, left, fuel, items) {
                    if hn.room() >= crate::readings::value_room(b) {
                        lemma_scan_step(h, conv, cur, left, fuel, items, t, ns, b);
                    }
                }
            }
        }
    }
}

/// An element that is scanned is read as a number and as an integer, each as far as
/// it is one; its text tells it.
pub proof fn lemma_scan_element(
    h: Heap,
    conv: Convention,
    cur: u32,
    left: nat,
    fuel: nat,
    items: Seq<ElementView>,
    t: Term,
    x: Term,
    y: Term,
    n: u64,
    bs: Seq<bool>,
    b: nat,
)
    requires
        h.wf(),
        h.live(cur),
        t.reduces(h.term(cur)),
        t.is_not_false(b),
        t.has_parts(x, y, b),
        left > 0,
        bs.len() < 64,
        fuel >= crate::readings::value_fuel(b),
        h.room() >= 2400 + 1700 * b,
    ensures
        h.scan(conv, cur, left, fuel, items) matches Ok((_, (r, _))) ==> {
            let v = match conv {
                Convention::ValueFirst => x,
                Convention::RestFirst => y,
            };
            let e = r[items.len() as int];
            &&& r.len() > items.len()
            &&& v.denotes(n as nat, b) ==> e.number == Some(n)
            &&& v.is_no_number(b) ==> e.number is None
            &&& (v.denotes(n as nat, b) || v.is_no_number(b)) && v.lists_bools(bs, b) ==> (
            e.integer matches Some(i) && i == crate::integer::signed_value(bs))
            &&& (v.denotes(n as nat, b) || v.is_no_number(b)) && v.lists_some_bools(bs, b)
                ==> e.integer is None
            &&& e.text matches Some(s) ==> v.tells(s)
        },
{
    let v = match conv {
        Convention::ValueFirst => x,
        Convention::RestFirst => y,
    };
    let c = 17 + 12 * b;
    assert(c * 66 == 1122 + 792 * b && c * (64 + 1) == 1105 + 780 * b) by (nonlinear_arith)
        requires
            c == 17 + 12 * b,
    ;
    let l = bs.len();
    assert(c * (l + 1) <= c * (64 + 1)) by (nonlinear_arith)
        requires
            l < 64,
            c >= 0,
    ;
    if l > 0 {
        assert(2 * b * (l - 1) <= 126 * b) by (nonlinear_arith)
            requires
                1 <= l <= 64,
                b >= 0,
        ;
    }
    crate::meaning::lemma_number_fuel(fuel, b);
    crate::meaning::lemma_read_not_false(h, cur, fuel, t, b);
    let (h1, _) = h.decode_bool(cur, fuel)->Ok_0;
    crate::laws::lemma_still(h, h1, cur, t);
    lemma_cell_parts(h1, conv, cur, fuel, t, x, y, b);
    let (h2, (value, rest)) = h1.cell_parts(conv, cur, fuel)->Ok_0;
    if v.denotes(n as nat, b) {
        crate::meaning::lemma_read_number(h2, value, fuel, v, n, b);
    }
    if v.is_no_number(b) {
        crate::readings::lemma_read_no_number(h2, value, fuel, v, b);
    }
    crate::readings::lemma_number_leads(h2, value, fuel);
    if let Ok((h3, number)) = h2.decode_scott_num(value, fuel) {
        crate::laws::lemma_still(h2, h3, value, v);
        lemma_integer_leads(h3, value, fuel);
        if v.denotes(n as nat, b) || v.is_no_number(b) {
            if v.lists_bools(bs, b) {
                crate::lists::lemma_decode_integer(h3, value, fuel, v, bs, b);
            }
            if v.lists_some_bools(bs, b) {
                crate::partial::lemma_no_integer(h3, value, fuel, v, bs, b);
            }
        }
        if let Ok((h4, integer)) = h3.decode_integer(value, fuel) {
            crate::laws::lemma_still(h3, h4, value, v);
            crate::shown::lemma_tells(h4, value, v);
            let text = if items.len() < crate::io::SHOWN_ELEMENTS {
                Some(h4.describe(value, 0))
            } else {
                None
            };
            let more = items.push(ElementView { number, integer, text });
            lemma_scanned(h4, conv, rest, (left - 1) as nat, fuel, more);
            if let Ok((_, (r, _))) = h.scan(conv, cur, left, fuel, items) {
                assert(more[items.len() as int] == r[items.len() as int]);
            }
        }
    }
}

/// Scanning goes on up to the end of the list, or as far as it may. The text of
/// an element is kept exactly if it is among the first forty.
pub proof fn lemma_scanned(
    h: Heap,
    conv: Convention,
    cur: u32,
    left: nat,
    fuel: nat,
    items: Seq<ElementView>,
)
    ensures
        h.scan(conv, cur, left, fuel, items) matches Ok((_, (r, ended))) ==> {
            &&& items.len() <= r.len() <= items.len() + left
            &&& !ended ==> r.len() == items.len() + left
            &&& items.is_prefix_of(r)
            &&& forall|k: int|
                items.len() <= k < r.len() ==> ((#[trigger] r[k]).text is Some <==> k < 40)
        },
    decreases left,
{
    if left > 0 {
        if let Ok((h1, nil)) = h.decode_bool(cur, fuel) {
            if let Ok((h2, (value, rest))) = h1.cell_parts(conv, cur, fuel) {
                if let Ok((h3, number)) = h2.decode_scott_num(value, fuel) {
                    if let Ok((h4, integer)) = h3.decode_integer(value, fuel) {
                        let text = if items.len() < crate::io::SHOWN_ELEMENTS {
                            Some(h4.describe(value, 0))
                        } else {
                            None
                        };
                        let more = items.push(ElementView { number, integer, text });
                        lemma_scanned(h4, conv, rest, (left - 1) as nat, fuel, more);
                        if nil != Some(false) {
                            if let Ok((_, (r, _))) = h.scan(conv, cur, left, fuel, items) {
                                assert(more[items.len() as int] == r[items.len() as int]);
                                assert forall|k: int| 0 <= k < items.len() implies items[k]
                                    == r[k] by {
                                    assert(more[k] == r[k]);
                                }
                                assert(items.is_prefix_of(r));
                            }
                        }
                    }
                }
            }
        }
    }
}

/// Scanning takes room, if anything.
proof fn lemma_scan_room(
    h: Heap,
    conv: Convention,
    cur: u32,
    left: nat,
    fuel: nat,
    items: Seq<ElementView>,
)
    requires
        h.wf(),
        h.live(cur),
    ensures
        h.scan(conv, cur, left, fuel, items) matches Ok((h1, _)) ==> h.leads_to(h1),
    decreases left,
{
    crate::heap::lemma_leads_refl(h);
    if left > 0 {
        crate::select::lemma_decode_bool(h, cur, fuel);
        if let Ok((h1, _)) = h.decode_bool(cur, fuel) {
            assert(h1.live(cur));
            lemma_cell_leads(h1, conv, cur, fuel);
            if let Ok((h2, (value, rest))) = h1.cell_parts(conv, cur, fuel) {
                crate::readings::lemma_number_leads(h2, value, fuel);
                if let Ok((h3, number)) = h2.decode_scott_num(value, fuel) {
                    assert(h2.live(value) && h3.live(value));
                    lemma_integer_leads(h3, value, fuel);
                    if let Ok((h4, integer)) = h3.decode_integer(value, fuel) {
                        assert(h2.live(rest) && h3.live(rest) && h4.live(rest));
                        let text = if items.len() < crate::io::SHOWN_ELEMENTS {
                            Some(h4.describe(value, 0))
                        } else {
                            None
                        };
                        lemma_scan_room(
                            h4,
                            conv,
                            rest,
                            (left - 1) as nat,
                            fuel,
                            items.push(ElementView { number, integer, text }),
                        );
                    }
                }
            }
        }
    }
}

proof fn lemma_cell_leads(h: Heap, conv: Convention, cur: u32, fuel: nat)
    requires
        h.wf(),
        h.live(cur),
    ensures
        h.cell_parts(conv, cur, fuel) matches Ok((h1, (value, rest))) ==> h.leads_to(h1)
            && h1.live2(value, rest),
{
    crate::select::lemma_pair_fst(h, cur, fuel);
    crate::select::lemma_pair_snd(h, cur, fuel);
    if let Ok((h1, (v, _))) = h.pair_fst(cur, fuel) {
        assert(h1.live(cur));
        crate::select::lemma_pair_snd(h1, cur, fuel);
    }
    if let Ok((h1, (v, _))) = h.pair_snd(cur, fuel) {
        assert(h1.live(cur));
        crate::select::lemma_pair_fst(h1, cur, fuel);
    }
}

/// One element of a list that is scanned.
proof fn lemma_scan_step(
    h: Heap,
    conv: Convention,
    cur: u32,
    left: nat,
    fuel: nat,
    items: Seq<ElementView>,
    t: Term,
    ns: Seq<u64>,
    b: nat,
)
    requires
        h.wf(),
        h.live(cur),
        t.reduces(h.term(cur)),
        t.lists_by(conv, ns, b),
        fuel >= crate::readings::value_fuel(b),
        left > 0,
        ns.len() > 0,
        h.scan(conv, cur, left, fuel, items) matches Ok((hn, _)) && hn.room()
            >= crate::readings::value_room(b) && h.room() >= hn.room(),
    ensures
        h.scan(conv, cur, left, fuel, items) matches Ok((h1, (r, ended))) && {
            &&& ended == (ns.len() < left)
            &&& r.len() == items.len() + if ns.len() < left {
                ns.len()
            } else {
                left
            }
            &&& items.is_prefix_of(r)
            &&& forall|k: int|
                0 <= k < r.len() - items.len() ==> (#[trigger] r[items.len() + k]).number == Some(
                    ns[k],
                )
        },
    decreases left, 0nat,
{
    crate::meaning::lemma_number_fuel(fuel, b);
    let (x, y) = choose|x: Term, y: Term|
        #![trigger t.has_parts(x, y, b)]
        match conv {
            Convention::ValueFirst => t.has_parts(x, y, b) && x.denotes(ns[0] as nat, b)
                && y.lists_by(conv, ns.skip(1), b),
            Convention::RestFirst => t.has_parts(x, y, b) && y.denotes(ns[0] as nat, b)
                && x.lists_by(conv, ns.skip(1), b),
        };
    let (tv, tr) = match conv {
        Convention::ValueFirst => (x, y),
        Convention::RestFirst => (y, x),
    };
    crate::meaning::lemma_read_not_false(h, cur, fuel, t, b);
    let (h1, _) = h.decode_bool(cur, fuel)->Ok_0;
    crate::laws::lemma_still(h, h1, cur, t);
    let (hn, (rn, en)) = h.scan(conv, cur, left, fuel, items)->Ok_0;
    lemma_cell_leads(h1, conv, cur, fuel);
    let (h2, (value, rest)) = h1.cell_parts(conv, cur, fuel)->Ok_0;
    crate::readings::lemma_number_leads(h2, value, fuel);
    let (h3, number) = h2.decode_scott_num(value, fuel)->Ok_0;
    assert(h3.live(value) && h3.live(rest));
    lemma_integer_leads(h3, value, fuel);
    let (h4, integer) = h3.decode_integer(value, fuel)->Ok_0;
    assert(h4.live(rest));
    let text = if items.len() < crate::io::SHOWN_ELEMENTS {
        Some(h4.describe(value, 0))
    } else {
        None
    };
    let more = items.push(ElementView { number, integer, text });
    lemma_scan_room(h4, conv, rest, (left - 1) as nat, fuel, more);
    lemma_cell_parts(h1, conv, cur, fuel, t, x, y, b);
    crate::meaning::lemma_read_number(h2, value, fuel, tv, ns[0], b);
    crate::laws::lemma_still(h2, h4, rest, tr);
    let ms = ns.skip(1);
    lemma_scan(h4, conv, rest, (left - 1) as nat, fuel, more, tr, ms, b);
    assert(more[items.len() as int] == rn[items.len() as int]);
    assert forall|k: int| 0 <= k < rn.len() - items.len() implies (#[trigger] rn[items.len()
        + k]).number == Some(ns[k]) by {
        if k > 0 {
            assert(rn[more.len() + (k - 1)].number == Some(ms[k - 1]));
        }
    }
    assert forall|k: int| 0 <= k < items.len() implies items[k] == rn[k] by {
        assert(more[k] == rn[k]);
    }
    assert(items.is_prefix_of(rn));
}

} // verus!
