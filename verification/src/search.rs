//! What the search for a string promises: of the codes, of their costs, and of
//! what the program is asked and answers.

use vstd::prelude::*;
use crate::heap::Heap;
use crate::keys::{FoundView, KEY_CODES, KEY_LENGTH};
use crate::term::Term;

verus! {

broadcast use crate::heap::group_leads;

/// The code wins among the costs: the string with it at its end costs the most,
/// and more than one in a hundred above any other that costs anything. The codes
/// count from one.
pub open spec fn wins(costs: Seq<u64>, code: u64) -> bool {
    &&& 1 <= code <= costs.len()
    &&& costs[code - 1] > 0
    &&& forall|j: int|
        0 <= j < costs.len() && j != code - 1 ==> #[trigger] costs[j] == 0 || costs[code - 1] * 100
            >= costs[j] * 101
}

/// No code wins: the two largest costs are close.
pub open spec fn none_wins(costs: Seq<u64>) -> bool {
    exists|i: int, j: int| #[trigger] are_close(costs, i, j)
}

/// The largest cost is at the place `i`, and that at another place `j` is not
/// zero, and close to it.
pub open spec fn are_close(costs: Seq<u64>, i: int, j: int) -> bool {
    &&& 0 <= i < costs.len() && 0 <= j < costs.len() && i != j
    &&& costs[j] > 0
    &&& costs[i] * 100 < costs[j] * 101
    &&& forall|k: int| 0 <= k < costs.len() ==> #[trigger] costs[k] <= costs[i]
}

/// Nothing costs anything.
pub open spec fn all_free(costs: Seq<u64>) -> bool {
    forall|k: int| 0 <= k < costs.len() ==> #[trigger] costs[k] == 0
}

/// The code after which the search goes on is the one that wins; it ends where
/// none wins. Where nothing costs anything, it goes on with code zero.
pub proof fn lemma_code_after(costs: Seq<u64>)
    requires
        1 < costs.len() < u64::MAX,
    ensures
        match crate::keys::code_after(costs) {
            None => none_wins(costs),
            Some(c) => wins(costs, c) || (c == 0 && all_free(costs)),
        },
{
    let b = crate::keys::best_of(costs);
    let rest = costs.remove(b);
    crate::keys::lemma_best(costs);
    crate::keys::lemma_best(rest);
    let s = crate::keys::best_of(rest);
    let j = if s < b {
        s
    } else {
        s + 1
    };
    assert(rest[s] == costs[j]);
    match crate::keys::code_after(costs) {
        None => {
            assert(are_close(costs, b, j));
        },
        Some(c) => {
            if costs[b] > 0 {
                assert forall|k: int| 0 <= k < costs.len() && k != b implies #[trigger] costs[k] == 0
                    || costs[b] * 100 >= costs[k] * 101 by {
                    let r = if k < b {
                        k
                    } else {
                        k - 1
                    };
                    assert(rest[r] == costs[k]);
                }
            }
        },
    }
}

impl Heap {
    /// The string costs `x`.
    pub open spec fn costs(self, q: u32, codes: Seq<u64>, fuel: nat, x: u64) -> bool {
        self.key_cost(q, codes, fuel) matches Ok((_, c)) && c == x
    }

    /// The costs are those of the string with one code more: with code one, two,
    /// and so on.
    pub open spec fn costs_of(self, q: u32, codes: Seq<u64>, fuel: nat, costs: Seq<u64>) -> bool {
        forall|c: int|
            0 <= c < costs.len() ==> self.costs(q, codes.push((c + 1) as u64), fuel, #[trigger] costs[c])
    }

    /// What was found: at each place the costs are those of the codes found so
    /// far with one code more, and the code that was found there is the one that
    /// wins among them; where the search ended, none wins.
    pub open spec fn is_found(self, q: u32, fuel: nat, f: FoundView) -> bool {
        &&& forall|k: int|
            0 <= k < f.trials.len() ==> (#[trigger] f.trials[k]).len() == 24
                && self.costs_of(q, f.codes.take(k), fuel, f.trials[k])
        &&& forall|k: int|
            0 <= k < f.codes.len() ==> wins(f.trials[k], #[trigger] f.codes[k]) || (f.codes[k] == 0
                && all_free(f.trials[k]))
        &&& f.ended ==> f.codes.len() < 30 && f.trials.len() == f.codes.len() + 1
            && none_wins(f.trials.last())
        &&& !f.ended ==> f.codes.len() == 30 && f.trials.len() == 30
    }
}

/// The costs at the end of a string are those of the string with each code.
pub proof fn lemma_key_costs(h: Heap, q: u32, codes: Seq<u64>, fuel: nat, costs: Seq<u64>)
    requires
        costs.len() <= KEY_CODES,
        h.costs_of(q, codes, fuel, costs),
    ensures
        h.key_costs(q, codes, fuel, costs) matches Ok(r) ==> r.len() == KEY_CODES && h.costs_of(
            q,
            codes,
            fuel,
            r,
        ),
    decreases KEY_CODES - costs.len(),
{
    if costs.len() < KEY_CODES {
        if let Ok((_, c)) = h.key_cost(q, codes.push((costs.len() + 1) as u64), fuel) {
            let more = costs.push(c);
            assert forall|k: int| 0 <= k < more.len() implies h.costs(
                q,
                codes.push((k + 1) as u64),
                fuel,
                #[trigger] more[k],
            ) by {
                if k < costs.len() {
                    assert(more[k] == costs[k]);
                }
            }
            lemma_key_costs(h, q, codes, fuel, more);
        }
    }
}

/// The search finds, place by place, the code that wins after those found
/// before, until none wins.
pub proof fn lemma_key_search(
    h: Heap,
    q: u32,
    fuel: nat,
    codes: Seq<u64>,
    trials: Seq<Seq<u64>>,
)
    requires
        codes.len() == trials.len() <= KEY_LENGTH,
        forall|k: int|
            0 <= k < trials.len() ==> (#[trigger] trials[k]).len() == KEY_CODES && h.costs_of(
                q,
                codes.take(k),
                fuel,
                trials[k],
            ),
        forall|k: int|
            0 <= k < codes.len() ==> wins(trials[k], #[trigger] codes[k]) || (codes[k] == 0
                && all_free(trials[k])),
    ensures
        h.key_search(q, fuel, codes, trials) matches Ok(f) ==> h.is_found(q, fuel, f)
            && codes.is_prefix_of(f.codes),
    decreases KEY_LENGTH - codes.len(),
{
    if codes.len() < KEY_LENGTH {
        lemma_key_costs(h, q, codes, fuel, Seq::empty());
        if let Ok(costs) = h.key_costs(q, codes, fuel, Seq::empty()) {
            lemma_code_after(costs);
            let t = trials.push(costs);
            assert(codes.take(codes.len() as int) =~= codes);
            match crate::keys::code_after(costs) {
                None => {
                    assert forall|k: int| 0 <= k < t.len() implies (#[trigger] t[k]).len()
                        == KEY_CODES && h.costs_of(q, codes.take(k), fuel, t[k]) by {
                        if k < trials.len() {
                            assert(t[k] == trials[k]);
                        }
                    }
                    assert forall|k: int| 0 <= k < codes.len() implies wins(
                        t[k],
                        #[trigger] codes[k],
                    ) || (codes[k] == 0 && all_free(t[k])) by {
                        assert(t[k] == trials[k]);
                    }
                },
                Some(c) => {
                    let more = codes.push(c);
                    assert forall|k: int| 0 <= k < t.len() implies (#[trigger] t[k]).len()
                        == KEY_CODES && h.costs_of(q, more.take(k), fuel, t[k]) by {
                        assert(more.take(k) =~= codes.take(k));
                        if k < trials.len() {
                            assert(t[k] == trials[k]);
                        }
                    }
                    assert forall|k: int| 0 <= k < more.len() implies wins(
                        t[k],
                        #[trigger] more[k],
                    ) || (more[k] == 0 && all_free(t[k])) by {
                        if k < codes.len() {
                            assert(t[k] == trials[k] && more[k] == codes[k]);
                        }
                    }
                    lemma_key_search(h, q, fuel, more, t);
                },
            }
        }
    }
}

/// The program is asked with the string whose codes are in the order in which
/// they were found, the last one outermost; what it is evaluated to is what
/// comes next.
pub proof fn lemma_key_reply(
    h: Heap,
    q: u32,
    codes: Seq<u64>,
    string: Seq<u64>,
    fuel: nat,
    k: nat,
    w: Term,
)
    requires
        h.wf(),
        h.live(q),
        string.len() == codes.len(),
        forall|i: int|
            0 <= i < codes.len() ==> #[trigger] codes[i] == string[codes.len() - 1 - i],
    ensures
        h.key_reply(q, codes, fuel) matches Ok((h1, (next, f))) ==> {
            &&& h.leads_to(h1)
            &&& h1.live(next)
            &&& f <= fuel
            &&& Term::app(h.term(q), Term::numbers(string)).reduces(h1.term(next))
        },
        Term::app(h.term(q), Term::numbers(string)).reaches(k, w) && fuel > k && h.room() >= 1600
            * codes.len() + 8 + 3 * k ==> (h.key_reply(q, codes, fuel) matches Ok((h1, (next, f)))
            && f + k >= fuel && w.reduces(h1.term(next)) && h1.room() + 1600 * codes.len() + 8 + 3
            * k >= h.room()),
{
    assert(codes.reverse() =~= string);
    crate::lists::lemma_make_list(h, string);
    if let Ok((h1, text)) = h.make_list(string) {
        assert(h1.live(q));
        crate::select::lemma_apply(h1, q, text);
        if let Ok((h2, app)) = h1.apply(q, text) {
            crate::select::lemma_eval(h2, app, fuel);
            if Term::app(h.term(q), Term::numbers(string)).reaches(k, w) && fuel > k && h.room()
                >= 1600 * codes.len() + 8 + 3 * k {
                crate::select::lemma_eval_reaches(h2, app, fuel, k, w);
            }
        }
    }
}

/// The head of an instruction is what the expression is: its tag, its operand,
/// and what the first part of the tag counts.
pub proof fn lemma_head(
    h: Heap,
    current: u32,
    fuel: nat,
    t: Term,
    tag: Term,
    operand: Term,
    c1: Term,
    c2: Term,
    p1: u64,
    b: nat,
)
    requires
        h.wf(),
        h.live(current),
        t.reduces(h.term(current)),
        t.has_parts1(tag, operand, b),
        tag.has_parts1(c1, c2, b),
        c1.counts(p1 as nat, b),
        fuel > b,
        h.room() >= 12 + 12 * b,
    ensures
        h.head(current, fuel) matches Ok((h1, x)) && x.p1 == Some(p1) && h.leads_to(h1) && h1.live2(
            x.tag,
            x.operand,
        ) && tag.reduces(h1.term(x.tag)) && operand.reduces(h1.term(x.operand)) && h1.room() + 12
            + 12 * b >= h.room(),
{
    crate::meaning::lemma_read_fst1(h, current, fuel, t, tag, operand, b);
    let (h1, (n, _)) = h.pair1_fst(current, fuel)->Ok_0;
    crate::laws::lemma_still(h, h1, current, t);
    crate::meaning::lemma_read_snd1(h1, current, fuel, t, tag, operand, b);
    let (h2, (q, _)) = h1.pair1_snd(current, fuel)->Ok_0;
    crate::laws::lemma_still(h1, h2, n, tag);
    crate::meaning::lemma_read_fst1(h2, n, fuel, tag, c1, c2, b);
    let (h3, (n1, _)) = h2.pair1_fst(n, fuel)->Ok_0;
    crate::church::lemma_counts(c1, h3.term(n1), p1 as nat, b);
    crate::church::lemma_decode_church_num(h3, n1, fuel, p1, b);
    let (h4, _) = h3.decode_church_num(n1, fuel)->Ok_0;
    crate::laws::lemma_still(h2, h4, n, tag);
    crate::laws::lemma_still(h2, h4, q, operand);
}

/// An instruction: a tag of two that count `p1` and `p2`, and an operand.
pub struct Order {
    pub tag: Term,
    pub operand: Term,
    pub c1: Term,
    pub c2: Term,
    pub p1: u64,
    pub p2: u64,
}

impl Term {
    /// The expression is the instruction, each part within `b` reductions.
    pub open spec fn orders(self, o: Order, b: nat) -> bool {
        &&& self.has_parts1(o.tag, o.operand, b)
        &&& o.tag.has_parts1(o.c1, o.c2, b)
        &&& o.c1.counts(o.p1 as nat, b)
        &&& o.c2.counts(o.p2 as nat, b)
    }
}

/// The search starts behind the first instruction: with what comes after what
/// that writes.
pub proof fn lemma_key_start(
    h: Heap,
    program: u32,
    fuel: nat,
    t: Term,
    first: Order,
    data: Term,
    next: Term,
    second: Order,
    b: nat,
)
    requires
        h.wf(),
        h.live(program),
        t.reduces(h.term(program)),
        t.orders(first, b),
        first.operand.has_parts1(data, next, b),
        next.orders(second, b),
        fuel > b,
        h.room() >= 28 + 27 * b,
    ensures
        h.key_start(program, fuel) matches Ok((h1, (x, y))) && x.p1 == Some(first.p1) && y.p1
            == Some(second.p1) && h.leads_to(h1) && second.operand.reduces(h1.term(y.operand)),
{
    lemma_head(
        h,
        program,
        fuel,
        t,
        first.tag,
        first.operand,
        first.c1,
        first.c2,
        first.p1,
        b,
    );
    let (h1, x) = h.head(program, fuel)->Ok_0;
    crate::meaning::lemma_read_snd1(h1, x.operand, fuel, first.operand, data, next, b);
    let (h2, (cont, _)) = h1.pair1_snd(x.operand, fuel)->Ok_0;
    lemma_head(
        h2,
        cont,
        fuel,
        next,
        second.tag,
        second.operand,
        second.c1,
        second.c2,
        second.p1,
        b,
    );
}

/// What the program answers to a string is read as what it is: the first
/// numeral of the instruction that the program applied to the string evaluates
/// to; where that writes, the second one; and where it writes text, the text.
pub proof fn lemma_try_key(
    h: Heap,
    q: u32,
    codes: Seq<u64>,
    string: Seq<u64>,
    fuel: nat,
    step: nat,
    w: Term,
    k: nat,
    o: Order,
    data: Term,
    next: Term,
    ns: Seq<u64>,
    b: nat,
)
    requires
        h.wf(),
        h.live(q),
        string.len() == codes.len(),
        forall|i: int|
            0 <= i < codes.len() ==> #[trigger] codes[i] == string[codes.len() - 1 - i],
        Term::app(h.term(q), Term::numbers(string)).reaches(k, w),
        fuel > k,
        w.orders(o, b),
        step > b,
        b <= 1_000,
        ns.len() <= 10_000,
        4 * step >= 700_000 + 3 * b * ns.len(),
        h.room() >= 1600 * codes.len() + 3 * k + 100 + 30 * b + (17 + 12 * b) * (67 * ns.len() + 1),
    ensures
        o.p1 != 1 ==> (h.try_key(q, codes, fuel, step) matches Ok((_, r)) && r.p1 == Some(o.p1)
            && r.p2 is None && r.text is None),
        o.p1 == 1 && o.operand.has_parts1(data, next, b) && o.p2 != 1 ==> (h.try_key(
            q,
            codes,
            fuel,
            step,
        ) matches Ok((_, r)) && r.p1 == Some(1u64) && r.p2 == Some(o.p2) && r.text is None),
        o.p1 == 1 && o.operand.has_parts1(data, next, b) && o.p2 == 1 && data.lists(ns, b) ==> (
        h.try_key(q, codes, fuel, step) matches Ok((_, r)) && r.p1 == Some(1u64) && r.p2 == Some(
            1u64,
        ) && r.text == Some(crate::lists::chars_of(ns).reverse())),
{
    lemma_key_reply(h, q, codes, string, fuel, k, w);
    let (h1, (n, _)) = h.key_reply(q, codes, fuel)->Ok_0;
    assert((17 + 12 * b) * (67 * ns.len() + 1) >= 0) by (nonlinear_arith);
    lemma_head(h1, n, step, w, o.tag, o.operand, o.c1, o.c2, o.p1, b);
    let (h2, x) = h1.head(n, step)->Ok_0;
    if o.p1 == 1 && o.operand.has_parts1(data, next, b) {
        crate::meaning::lemma_read_fst1(h2, x.operand, step, o.operand, data, next, b);
        let (h3, (d, _)) = h2.pair1_fst(x.operand, step)->Ok_0;
        crate::laws::lemma_still(h2, h3, x.tag, o.tag);
        crate::meaning::lemma_read_snd1(h3, x.tag, step, o.tag, o.c1, o.c2, b);
        let (h4, (n2, _)) = h3.pair1_snd(x.tag, step)->Ok_0;
        crate::church::lemma_counts(o.c2, h4.term(n2), o.p2 as nat, b);
        crate::church::lemma_decode_church_num(h4, n2, step, o.p2, b);
        let (h5, _) = h4.decode_church_num(n2, step)->Ok_0;
        if o.p2 == 1 && data.lists(ns, b) {
            crate::laws::lemma_still(h3, h5, d, data);
            if ns.len() > 0 {
                assert(3 * (2 * b * (ns.len() - 1)) <= 2 * (3 * b * ns.len()) && 3 * b * ns.len()
                    >= 0) by (nonlinear_arith)
                    requires
                        ns.len() >= 1,
                ;
            }
            crate::meaning::lemma_read_string(h5, d, step * 4, data, ns, b);
        }
    }
}

/// What is seen of the answer to a string is what it is: the first numeral of
/// the instruction, and the number that its data begins with, if the data is not
/// empty. The cost is at least what the evaluation up to the instruction took,
/// and at most `b` for each further part besides.
pub proof fn lemma_key_trial(
    h: Heap,
    q: u32,
    codes: Seq<u64>,
    string: Seq<u64>,
    fuel: nat,
    w: Term,
    k: nat,
    o: Order,
    data: Term,
    next: Term,
    x: Term,
    y: Term,
    n: u64,
    b: nat,
)
    requires
        h.wf(),
        h.live(q),
        string.len() == codes.len(),
        forall|i: int|
            0 <= i < codes.len() ==> #[trigger] codes[i] == string[codes.len() - 1 - i],
        Term::app(h.term(q), Term::numbers(string)).reaches(k, w),
        fuel > k,
        w.orders(o, b),
        o.operand.has_parts1(data, next, b),
        fuel >= 10 * crate::readings::value_fuel(b),
        k + 5 * b <= u64::MAX,
        h.room() >= 1600 * codes.len() + 3 * k + 1300 + 900 * b,
    ensures
        data.says(false, b) ==> (h.key_trial(q, codes, fuel) matches Ok((_, r)) && r.p1 == Some(
            o.p1,
        ) && r.first is None && (h.key_reply(q, codes, fuel) matches Ok((_, (_, f))) && fuel - f
            <= r.cost <= k + 4 * b)),
        data.is_not_false(b) && data.has_parts(x, y, b) && x.denotes(n as nat, b) ==> (h.key_trial(
            q,
            codes,
            fuel,
        ) matches Ok((_, r)) && r.p1 == Some(o.p1) && r.first == Some(Some(n)) && (h.key_reply(
            q,
            codes,
            fuel,
        ) matches Ok((_, (_, f))) && fuel - f <= r.cost <= k + 5 * b)),
{
    reveal(Heap::key_trial);
    lemma_key_reply(h, q, codes, string, fuel, k, w);
    let (h0, (m, f)) = h.key_reply(q, codes, fuel)->Ok_0;
    crate::meaning::lemma_number_fuel(fuel / 10, b);
    crate::meaning::lemma_read_fst1(h0, m, fuel, w, o.tag, o.operand, b);
    crate::select::lemma_pair1_fst(h0, m, fuel);
    let (h1, (tag, f1)) = h0.pair1_fst(m, fuel)->Ok_0;
    crate::laws::lemma_still(h0, h1, m, w);
    crate::meaning::lemma_read_snd1(h1, m, fuel, w, o.tag, o.operand, b);
    crate::select::lemma_pair1_snd(h1, m, fuel);
    let (h2, (operand, f2)) = h1.pair1_snd(m, fuel)->Ok_0;
    crate::laws::lemma_still(h1, h2, tag, o.tag);
    crate::meaning::lemma_read_fst1(h2, tag, fuel, o.tag, o.c1, o.c2, b);
    crate::select::lemma_pair1_fst(h2, tag, fuel);
    let (h3, (n1, f3)) = h2.pair1_fst(tag, fuel)->Ok_0;
    crate::church::lemma_counts(o.c1, h3.term(n1), o.p1 as nat, b);
    crate::church::lemma_decode_church_num(h3, n1, fuel, o.p1, b);
    let (h4, _) = h3.decode_church_num(n1, fuel)->Ok_0;
    crate::laws::lemma_still(h2, h4, operand, o.operand);
    crate::meaning::lemma_read_fst1(h4, operand, fuel, o.operand, data, next, b);
    crate::select::lemma_pair1_fst(h4, operand, fuel);
    let (h5, (d, f4)) = h4.pair1_fst(operand, fuel)->Ok_0;
    if data.says(false, b) {
        crate::meaning::lemma_read_bool(h5, d, fuel / 10, data, false, b);
    }
    if data.is_not_false(b) && data.has_parts(x, y, b) && x.denotes(n as nat, b) {
        crate::meaning::lemma_read_not_false(h5, d, fuel / 10, data, b);
        let (h6, _) = h5.decode_bool(d, fuel / 10)->Ok_0;
        crate::laws::lemma_still(h5, h6, d, data);
        crate::meaning::lemma_read_fst(h6, d, fuel, data, x, y, b);
        crate::select::lemma_pair_fst(h6, d, fuel);
        let (h7, (e, f5)) = h6.pair_fst(d, fuel)->Ok_0;
        crate::meaning::lemma_read_number(h7, e, fuel / 10, x, n, b);
    }
}

/// The cost of a string is what its parts cost together: the evaluation up to the
/// instruction, both parts of the instruction, the first part of its tag, and what
/// it writes; and, unless that is empty, its first element.
pub proof fn lemma_trial_cost(
    h: Heap,
    q: u32,
    codes: Seq<u64>,
    fuel: nat,
    reply: (Heap, (u32, nat)),
    tag: (Heap, (u32, nat)),
    operand: (Heap, (u32, nat)),
    numeral: (Heap, (u32, nat)),
    counted: (Heap, Option<u64>),
    data: (Heap, (u32, nat)),
)
    requires
        h.key_reply(q, codes, fuel) matches Ok(r) && r == reply,
        reply.0.pair1_fst(reply.1.0, fuel) matches Ok(r) && r == tag,
        tag.0.pair1_snd(reply.1.0, fuel) matches Ok(r) && r == operand,
        operand.0.pair1_fst(tag.1.0, fuel) matches Ok(r) && r == numeral,
        numeral.0.decode_church_num(numeral.1.0, fuel) matches Ok(r) && r == counted,
        counted.0.pair1_fst(operand.1.0, fuel) matches Ok(r) && r == data,
        reply.1.1 <= fuel,
        tag.1.1 <= fuel,
        operand.1.1 <= fuel,
        numeral.1.1 <= fuel,
        data.1.1 <= fuel,
        6 * fuel <= u64::MAX,
    ensures
        h.key_trial(q, codes, fuel) matches Ok((_, t)) ==> {
            let spent = 5 * fuel - reply.1.1 - tag.1.1 - operand.1.1 - numeral.1.1 - data.1.1;
            &&& t.p1 == counted.1
            &&& t.first is None ==> t.cost == spent
            &&& t.first is Some ==> (data.0.decode_bool(data.1.0, fuel / 10) matches Ok((h1, _)) && (
            h1.pair_fst(data.1.0, fuel) matches Ok((_, (_, f))) && (f <= fuel ==> t.cost == spent
                + fuel - f)))
        },
{
    reveal(Heap::key_trial);
}

} // verus!
