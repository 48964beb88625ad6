//! Searching the string that a program does the most work on.
//!
//! A program that reads a string and compares it with one of its own does more
//! reductions the further the comparison gets. The search extends the string
//! code by code, each time by the code that costs the most reductions.

use vstd::prelude::*;
use crate::arena::Arena;
use crate::church::decode_church_num;
use crate::decode::decode_scott_num;
use crate::heap::{AllocError, Heap, Outcome};
use crate::integer::decode_string;
use crate::io::{make_list, resume};
use crate::select::{decode_bool, pair1_fst, pair1_snd, pair_fst};

verus! {

broadcast use crate::heap::group_leads;

/// The codes that are tried: one up to this.
pub const KEY_CODES: usize = 24;

/// The number of codes at which the search ends in any case.
pub const KEY_LENGTH: usize = 30;

/// The number, or the largest one that fits into a word.
pub open spec fn word(n: nat) -> u64 {
    if n > u64::MAX {
        u64::MAX
    } else {
        n as u64
    }
}

/// The head of an instruction: its tag, its operand, and the first numeral of
/// the tag.
#[derive(Clone, Copy, PartialEq, Eq, Structural, Debug)]
pub struct Head {
    pub tag: u32,
    pub operand: u32,
    pub p1: Option<u64>,
}

/// What was seen of the answer to a string: the first numeral of the next
/// instruction, the number that its data begins with, and the reductions.
#[derive(Clone, Copy, PartialEq, Eq, Structural, Debug)]
pub struct Trial {
    pub p1: Option<u64>,
    /// Nothing where the data is empty; otherwise its first element, if that is
    /// a number.
    pub first: Option<Option<u64>>,
    pub cost: u64,
}

/// What a program says to a string: the numerals of its next instruction, and
/// the text if it writes one.
pub struct Reply {
    pub p1: Option<u64>,
    /// The second numeral, if the instruction writes.
    pub p2: Option<u64>,
    pub text: Option<String>,
}

/// A reply as a mathematical object.
pub struct ReplyView {
    pub p1: Option<u64>,
    pub p2: Option<u64>,
    pub text: Option<Seq<char>>,
}

impl View for Reply {
    type V = ReplyView;

    open spec fn view(&self) -> ReplyView {
        ReplyView {
            p1: self.p1,
            p2: self.p2,
            text: match self.text {
                Some(s) => Some(s@),
                None => None,
            },
        }
    }
}

impl Heap {
    /// The head of an instruction.
    pub open spec fn head(self, current: u32, fuel: nat) -> Outcome<Head> {
        match self.pair1_fst(current, fuel) {
            Err(e) => Err(e),
            Ok((h1, (tag, _))) => match h1.pair1_snd(current, fuel) {
                Err(e) => Err(e),
                Ok((h2, (operand, _))) => match h2.pair1_fst(tag, fuel) {
                    Err(e) => Err(e),
                    Ok((h3, (p1_node, _))) => match h3.decode_church_num(p1_node, fuel) {
                        Err(e) => Err(e),
                        Ok((h4, p1)) => Ok((h4, Head { tag, operand, p1 })),
                    },
                },
            },
        }
    }

    /// The heads of the first instruction, which writes, and of the second.
    pub open spec fn key_start(self, program: u32, fuel: nat) -> Outcome<(Head, Head)> {
        match self.head(program, fuel) {
            Err(e) => Err(e),
            Ok((h1, first)) => match h1.pair1_snd(first.operand, fuel) {
                Err(e) => Err(e),
                Ok((h2, (cont, _))) => match h2.head(cont, fuel) {
                    Err(e) => Err(e),
                    Ok((h3, second)) => Ok((h3, (first, second))),
                },
            },
        }
    }

    /// Hands a string to `q`, the last code outermost: the node that follows,
    /// and the fuel that is left.
    pub open spec fn key_reply(self, q: u32, codes: Seq<u64>, fuel: nat) -> Outcome<(u32, nat)> {
        match self.make_list(codes.reverse()) {
            Err(e) => Err(e),
            Ok((h1, text)) => h1.resume(q, text, fuel),
        }
    }

    /// The instruction `next` and the first element of its data, with the
    /// reductions for them, and `spent` more.
    pub open spec fn reply_trial(self, next: u32, fuel: nat, spent: nat) -> Outcome<Trial> {
        match self.pair1_fst(next, fuel) {
            Err(e) => Err(e),
            Ok((h1, (tag, f1))) => match h1.pair1_snd(next, fuel) {
                Err(e) => Err(e),
                Ok((h2, (operand, f2))) => match h2.pair1_fst(tag, fuel) {
                    Err(e) => Err(e),
                    Ok((h3, (p1_node, f3))) => match h3.decode_church_num(p1_node, fuel) {
                        Err(e) => Err(e),
                        Ok((h4, p1)) => match h4.pair1_fst(operand, fuel) {
                            Err(e) => Err(e),
                            Ok((h5, (data, f4))) => h5.data_trial(
                                p1,
                                data,
                                fuel,
                                spent + (fuel - f1) as nat + (fuel - f2) as nat + (fuel
                                    - f3) as nat + (fuel - f4) as nat,
                            ),
                        },
                    },
                },
            },
        }
    }

    /// The first element of a list, with the reductions for it, and `spent`
    /// more.
    pub open spec fn data_trial(
        self,
        p1: Option<u64>,
        data: u32,
        fuel: nat,
        spent: nat,
    ) -> Outcome<Trial> {
        match self.decode_bool(data, fuel / 10) {
            Err(e) => Err(e),
            Ok((h1, Some(false))) => Ok((h1, Trial { p1, first: None, cost: word(spent) })),
            Ok((h1, _)) => match h1.pair_fst(data, fuel) {
                Err(e) => Err(e),
                Ok((h2, (element, f1))) => match h2.decode_scott_num(element, fuel / 10) {
                    Err(e) => Err(e),
                    Ok((h3, first)) => Ok(
                        (
                            h3,
                            Trial {
                                p1,
                                first: Some(first),
                                cost: word(spent + (fuel - f1) as nat),
                            },
                        ),
                    ),
                },
            },
        }
    }

    /// What is seen of the answer to a string, with the reductions until the
    /// next instruction, for its parts, and for the first element of what it
    /// writes.
    #[verifier::opaque]
    pub open spec fn key_trial(self, q: u32, codes: Seq<u64>, fuel: nat) -> Outcome<Trial> {
        match self.key_reply(q, codes, fuel) {
            Err(e) => Err(e),
            Ok((h1, (next, f))) => h1.reply_trial(next, fuel, (fuel - f) as nat),
        }
    }

    /// The reductions that a string costs.
    pub open spec fn key_cost(self, q: u32, codes: Seq<u64>, fuel: nat) -> Outcome<u64> {
        match self.key_trial(q, codes, fuel) {
            Err(e) => Err(e),
            Ok((h1, t)) => Ok((h1, t.cost)),
        }
    }

    /// What each code costs at the end of the string, after those in `costs`.
    /// Every trial starts from the same arena.
    pub open spec fn key_costs(
        self,
        q: u32,
        codes: Seq<u64>,
        fuel: nat,
        costs: Seq<u64>,
    ) -> Result<Seq<u64>, AllocError>
        decreases KEY_CODES - costs.len(),
    {
        if costs.len() >= KEY_CODES {
            Ok(costs)
        } else {
            match self.key_cost(q, codes.push((costs.len() + 1) as u64), fuel) {
                Err(e) => Err(e),
                Ok((_, c)) => self.key_costs(q, codes, fuel, costs.push(c)),
            }
        }
    }

    /// What the string with the code `k + 1` at its end costs, is `c`.
    pub open spec fn is_cost(self, q: u32, codes: Seq<u64>, fuel: nat, k: int, c: u64) -> bool {
        self.key_cost(q, codes.push((k + 1) as u64), fuel) matches Ok((_, x)) && x == c
    }

    /// Each is what the string with one code more costs.
    pub open spec fn are_costs(self, q: u32, codes: Seq<u64>, fuel: nat, costs: Seq<u64>) -> bool {
        forall|k: int|
            0 <= k < costs.len() ==> #[trigger] self.is_cost(q, codes, fuel, k, costs[k])
    }

    /// Extends the string as long as a code wins.
    pub open spec fn key_search(
        self,
        q: u32,
        fuel: nat,
        codes: Seq<u64>,
        trials: Seq<Seq<u64>>,
    ) -> Result<FoundView, AllocError>
        decreases KEY_LENGTH - codes.len(),
    {
        if codes.len() >= KEY_LENGTH {
            Ok(FoundView { codes, trials, ended: false })
        } else {
            match self.key_costs(q, codes, fuel, Seq::empty()) {
                Err(e) => Err(e),
                Ok(costs) => match code_after(costs) {
                    None => Ok(FoundView { codes, trials: trials.push(costs), ended: true }),
                    Some(c) => self.key_search(q, fuel, codes.push(c), trials.push(costs)),
                },
            }
        }
    }

    /// What the program says to a string.
    pub open spec fn try_key(
        self,
        q: u32,
        codes: Seq<u64>,
        fuel: nat,
        step: nat,
    ) -> Outcome<ReplyView> {
        match self.key_reply(q, codes, fuel) {
            Err(e) => Err(e),
            Ok((h1, (next, _))) => match h1.head(next, step) {
                Err(e) => Err(e),
                Ok((h2, head)) => if head.p1 == Some(1u64) {
                    h2.written(head, step)
                } else {
                    Ok((h2, ReplyView { p1: head.p1, p2: None, text: None }))
                },
            },
        }
    }

    /// What an instruction writes.
    pub open spec fn written(self, head: Head, step: nat) -> Outcome<ReplyView> {
        match self.pair1_fst(head.operand, step) {
            Err(e) => Err(e),
            Ok((h1, (data, _))) => match h1.pair1_snd(head.tag, step) {
                Err(e) => Err(e),
                Ok((h2, (p2_node, _))) => match h2.decode_church_num(p2_node, step) {
                    Err(e) => Err(e),
                    Ok((h3, p2)) => if p2 == Some(1u64) {
                        match h3.decode_string(data, step * 4) {
                            Err(e) => Err(e),
                            Ok((h4, s)) => Ok((h4, ReplyView { p1: head.p1, p2, text: Some(s) })),
                        }
                    } else {
                        Ok((h3, ReplyView { p1: head.p1, p2, text: None }))
                    },
                },
            },
        }
    }
}

/// The outcome of a search: the codes, what each code cost at each place, and
/// whether it ended because none won.
pub struct Found {
    pub codes: Vec<u64>,
    pub trials: Vec<Vec<u64>>,
    pub ended: bool,
}

/// The outcome of a search as a mathematical object.
pub struct FoundView {
    pub codes: Seq<u64>,
    pub trials: Seq<Seq<u64>>,
    pub ended: bool,
}

/// The lists that the vectors hold.
pub open spec fn lists_of(v: Seq<Vec<u64>>) -> Seq<Seq<u64>> {
    Seq::new(v.len(), |k: int| v[k]@)
}

impl View for Found {
    type V = FoundView;

    open spec fn view(&self) -> FoundView {
        FoundView { codes: self.codes@, trials: lists_of(self.trials@), ended: self.ended }
    }
}

/// The place of the largest cost, the first one of several.
pub open spec fn best_of(costs: Seq<u64>) -> int
    decreases costs.len(),
{
    if costs.len() <= 1 {
        0
    } else {
        let b = best_of(costs.drop_last());
        if costs.last() > costs[b] {
            costs.len() - 1
        } else {
            b
        }
    }
}

/// The best is less than one in a hundred above the second.
pub open spec fn close(top: u64, second: u64) -> bool {
    second > 0 && top * 100 < second * 101
}

/// The second largest cost.
pub open spec fn second_of(costs: Seq<u64>) -> u64 {
    let rest = costs.remove(best_of(costs));
    rest[best_of(rest)]
}

/// The code that costs most, unless the best costs are close. Code zero where
/// none costs anything.
pub open spec fn code_after(costs: Seq<u64>) -> Option<u64> {
    let b = best_of(costs);
    if close(costs[b], second_of(costs)) {
        None
    } else if costs[b] == 0 {
        Some(0)
    } else {
        Some((b + 1) as u64)
    }
}

/// The largest cost is at the place that `best_of` names, and not before.
pub proof fn lemma_best(costs: Seq<u64>)
    requires
        costs.len() > 0,
    ensures
        0 <= best_of(costs) < costs.len(),
        forall|k: int| 0 <= k < costs.len() ==> #[trigger] costs[k] <= costs[best_of(costs)],
        forall|k: int| 0 <= k < best_of(costs) ==> #[trigger] costs[k] < costs[best_of(costs)],
    decreases costs.len(),
{
    if costs.len() > 1 {
        let c = costs.drop_last();
        lemma_best(c);
        assert forall|k: int| 0 <= k < costs.len() implies #[trigger] costs[k]
            <= costs[best_of(costs)] by {
            if k < c.len() {
                assert(c[k] == costs[k]);
            }
        }
        assert forall|k: int| 0 <= k < best_of(costs) implies #[trigger] costs[k]
            < costs[best_of(costs)] by {
            assert(c[k] == costs[k]);
        }
    }
}

/// The place of the largest cost, the first one of several.
pub fn best_code(costs: &Vec<u64>) -> (k: usize)
    requires
        costs@.len() > 0,
    ensures
        k < costs@.len(),
        forall|j: int| 0 <= j < costs@.len() ==> costs@[j] <= costs@[k as int],
        forall|j: int| 0 <= j < k ==> costs@[j] < costs@[k as int],
        k == best_of(costs@),
{
    let mut best: usize = 0;
    let mut i: usize = 1;
    while i < costs.len()
        invariant
            1 <= i <= costs@.len(),
            best < i,
            best == best_of(costs@.take(i as int)),
        decreases costs.len() - i,
    {
        assert(costs@.take(i + 1).drop_last() =~= costs@.take(i as int));
        if costs[i] > costs[best] {
            best = i;
        }
        i += 1;
    }
    proof {
        assert(costs@.take(i as int) =~= costs@);
        lemma_best(costs@);
    }
    best
}

/// No code wins: the best is less than one in a hundred above the second.
pub fn no_winner(top: u64, second: u64) -> (b: bool)
    ensures
        b == (second > 0 && top * 100 < second * 101),
{
    second > 0 && (top as u128) * 100 < (second as u128) * 101
}

/// The second largest cost.
pub fn second_cost(costs: &Vec<u64>) -> (c: u64)
    requires
        costs@.len() > 1,
    ensures
        c == second_of(costs@),
{
    let best: usize = best_code(costs);
    let mut rest: Vec<u64> = Vec::new();
    let mut i: usize = 0;
    while i < costs.len()
        invariant
            i <= costs@.len(),
            best < costs@.len(),
            i <= best ==> rest@ == costs@.take(i as int),
            i > best ==> rest@ == costs@.take(i as int).remove(best as int),
        decreases costs.len() - i,
    {
        assert(costs@.take(i + 1) =~= costs@.take(i as int).push(costs@[i as int]));
        if i != best {
            rest.push(costs[i]);
        }
        i += 1;
    }
    assert(costs@.take(i as int) =~= costs@);
    rest[best_code(&rest)]
}

/// The code to extend the string by, or nothing where no code wins.
pub fn next_code(costs: &Vec<u64>) -> (c: Option<u64>)
    requires
        costs@.len() > 1,
    ensures
        c == code_after(costs@),
{
    let best: usize = best_code(costs);
    let top: u64 = costs[best];
    if no_winner(top, second_cost(costs)) {
        None
    } else if top == 0 {
        Some(0)
    } else {
        let n: usize = costs.len();
        assert(best + 1 <= n);
        Some((best + 1) as u64)
    }
}

/// The order of the codes: the largest cost first, the smaller code first
/// where costs are the same.
pub open spec fn before(costs: Seq<u64>, a: usize, b: usize) -> bool {
    costs[a as int] > costs[b as int] || (costs[a as int] == costs[b as int] && a < b)
}

/// All places, the one with the largest cost first.
pub fn ranking(costs: &Vec<u64>) -> (r: Vec<usize>)
    ensures
        r@.len() == costs@.len(),
        forall|k: int| 0 <= k < r@.len() ==> #[trigger] r@[k] < costs@.len(),
        forall|j: int, k: int| 0 <= j < k < r@.len() ==> before(costs@, r@[j], r@[k]),
        forall|i: usize| i < costs@.len() ==> #[trigger] r@.contains(i),
        costs@.len() > 0 ==> r@[0] == best_of(costs@),
{
    let mut r: Vec<usize> = Vec::new();
    let mut i: usize = 0;
    while i < costs.len()
        invariant
            i <= costs@.len(),
            r@.len() == i,
            forall|k: int| 0 <= k < r@.len() ==> #[trigger] r@[k] < i,
            forall|j: int, k: int| 0 <= j < k < r@.len() ==> before(costs@, r@[j], r@[k]),
            forall|j: usize| j < i ==> #[trigger] r@.contains(j),
        decreases costs.len() - i,
    {
        let mut p: usize = 0;
        while p < r.len() && costs[r[p]] >= costs[i]
            invariant
                p <= r@.len(),
                i < costs@.len(),
                forall|k: int| 0 <= k < r@.len() ==> #[trigger] r@[k] < i,
                forall|k: int| 0 <= k < p ==> before(costs@, #[trigger] r@[k], i),
            decreases r.len() - p,
        {
            p += 1;
        }
        let ghost old_r = r@;
        r.insert(p, i);
        proof {
            assert(r@ == old_r.insert(p as int, i));
            assert forall|j: usize| j < i + 1 implies #[trigger] r@.contains(j) by {
                if j == i {
                    assert(r@[p as int] == j);
                } else {
                    assert(old_r.contains(j));
                    let k = choose|k: int| 0 <= k < old_r.len() && old_r[k] == j;
                    assert(r@[if k < p {
                        k
                    } else {
                        k + 1
                    }] == j);
                }
            }
            assert forall|k: int| 0 <= k < r@.len() implies #[trigger] r@[k] < i + 1 by {
                if k > p {
                    assert(r@[k] == old_r[k - 1]);
                }
            }
            assert forall|j: int, k: int| 0 <= j < k < r@.len() implies before(
                costs@,
                r@[j],
                r@[k],
            ) by {
                if k > p {
                    assert(r@[k] == old_r[k - 1]);
                    if j > p {
                        assert(r@[j] == old_r[j - 1]);
                    } else if j == p {
                        if p < k - 1 {
                            assert(before(costs@, old_r[p as int], old_r[k - 1]));
                        }
                    }
                }
            }
        }
        i += 1;
    }
    proof {
        if costs@.len() > 0 {
            lemma_best(costs@);
            let b = best_of(costs@);
            assert(r@.contains(b as usize));
            let k = choose|k: int| 0 <= k < r@.len() && r@[k] == b as usize;
            if k > 0 {
                assert(before(costs@, r@[0], r@[k]));
            }
        }
    }
    r
}

/// The sum, or the largest number that fits.
fn plus(a: u64, b: u64) -> (c: u64)
    ensures
        c == word(a as nat + b as nat),
{
    if a > u64::MAX - b {
        u64::MAX
    } else {
        a + b
    }
}

/// The codes, the last one first.
fn reversed(codes: &Vec<u64>) -> (r: Vec<u64>)
    ensures
        r@ == codes@.reverse(),
{
    let mut r: Vec<u64> = Vec::new();
    let mut i: usize = codes.len();
    while i > 0
        invariant
            i <= codes@.len(),
            r@.len() == codes@.len() - i,
            forall|k: int| 0 <= k < r@.len() ==> r@[k] == codes@[codes@.len() - 1 - k],
        decreases i,
    {
        i -= 1;
        r.push(codes[i]);
    }
    assert(r@ =~= codes@.reverse());
    r
}

/// The head of an instruction.
pub fn head(arena: &mut Arena, current: u32, fuel: u64) -> (r: Result<Head, AllocError>)
    requires
        old(arena)@.wf(),
        old(arena)@.live(current),
    ensures
        Heap::ran(old(arena)@.head(current, fuel as nat), final(arena)@, r),
        old(arena)@.leads_to(final(arena)@),
        r matches Ok(x) ==> final(arena)@.live2(x.tag, x.operand),
{
    let mut f1: u64 = fuel;
    let tag: u32 = pair1_fst(arena, current, &mut f1)?;
    let mut f2: u64 = fuel;
    let operand: u32 = pair1_snd(arena, current, &mut f2)?;
    let mut f3: u64 = fuel;
    let p1_node: u32 = pair1_fst(arena, tag, &mut f3)?;
    let p1 = decode_church_num(arena, p1_node, fuel)?;
    Ok(Head { tag, operand, p1 })
}

/// Goes past the first instruction, which writes: its head, and that of the
/// instruction after it.
pub fn key_start(arena: &mut Arena, program: u32, fuel: u64) -> (r: Result<
    (Head, Head),
    AllocError,
>)
    requires
        old(arena)@.wf(),
        old(arena)@.live(program),
    ensures
        Heap::ran(old(arena)@.key_start(program, fuel as nat), final(arena)@, r),
        old(arena)@.leads_to(final(arena)@),
        r matches Ok(x) ==> final(arena)@.live2(x.1.tag, x.1.operand),
{
    let first = head(arena, program, fuel)?;
    let mut f: u64 = fuel;
    let cont: u32 = pair1_snd(arena, first.operand, &mut f)?;
    let second = head(arena, cont, fuel)?;
    Ok((first, second))
}

/// Hands a string to `q`, the last code outermost.
fn key_reply(arena: &mut Arena, q: u32, codes: &Vec<u64>, fuel: &mut u64) -> (r: Result<
    u32,
    AllocError,
>)
    requires
        old(arena)@.wf(),
        old(arena)@.live(q),
    ensures
        Heap::ran_fuel(
            old(arena)@.key_reply(q, codes@, *old(fuel) as nat),
            final(arena)@,
            r,
            *final(fuel),
        ),
        old(arena)@.leads_to(final(arena)@),
        *final(fuel) <= *old(fuel),
        r matches Ok(i) ==> final(arena)@.live(i),
{
    let text: u32 = make_list(arena, &reversed(codes))?;
    resume(arena, q, text, fuel)
}

/// The first element of a list, with the reductions for it, and `spent` more.
fn data_trial(
    arena: &mut Arena,
    p1: Option<u64>,
    data: u32,
    fuel: u64,
    spent: u64,
    all: Ghost<nat>,
) -> (r: Result<Trial, AllocError>)
    requires
        old(arena)@.wf(),
        old(arena)@.live(data),
        spent == word(all@),
    ensures
        Heap::ran(old(arena)@.data_trial(p1, data, fuel as nat, all@), final(arena)@, r),
        old(arena)@.leads_to(final(arena)@),
{
    let nil = decode_bool(arena, data, fuel / 10)?;
    if let Some(false) = nil {
        return Ok(Trial { p1, first: None, cost: spent });
    }
    let mut f: u64 = fuel;
    let element: u32 = pair_fst(arena, data, &mut f)?;
    let first = decode_scott_num(arena, element, fuel / 10)?;
    Ok(Trial { p1, first: Some(first), cost: plus(spent, fuel - f) })
}

/// What is seen of the answer to a string, with the reductions until the next
/// instruction, for its parts, and for the first element of what it writes:
/// together no more than fit into a word.
pub fn key_trial(arena: &mut Arena, q: u32, codes: &Vec<u64>, fuel: u64) -> (r: Result<
    Trial,
    AllocError,
>)
    requires
        old(arena)@.wf(),
        old(arena)@.live(q),
    ensures
        Heap::ran(old(arena)@.key_trial(q, codes@, fuel as nat), final(arena)@, r),
        old(arena)@.leads_to(final(arena)@),
{
    proof {
        reveal(Heap::key_trial);
    }
    let mut f: u64 = fuel;
    let next: u32 = key_reply(arena, q, codes, &mut f)?;
    let mut f1: u64 = fuel;
    let tag: u32 = pair1_fst(arena, next, &mut f1)?;
    let mut f2: u64 = fuel;
    let operand: u32 = pair1_snd(arena, next, &mut f2)?;
    let mut f3: u64 = fuel;
    let p1_node: u32 = pair1_fst(arena, tag, &mut f3)?;
    let p1 = decode_church_num(arena, p1_node, fuel)?;
    let mut f4: u64 = fuel;
    let data: u32 = pair1_fst(arena, operand, &mut f4)?;
    let ghost all: nat = (fuel - f) as nat + (fuel - f1) as nat + (fuel - f2) as nat + (fuel
        - f3) as nat + (fuel - f4) as nat;
    let spent: u64 = plus(plus(plus(plus(fuel - f, fuel - f1), fuel - f2), fuel - f3), fuel - f4);
    data_trial(arena, p1, data, fuel, spent, Ghost(all))
}

/// The reductions that a string costs.
pub fn key_cost(arena: &mut Arena, q: u32, codes: &Vec<u64>, fuel: u64) -> (r: Result<
    u64,
    AllocError,
>)
    requires
        old(arena)@.wf(),
        old(arena)@.live(q),
    ensures
        Heap::ran(old(arena)@.key_cost(q, codes@, fuel as nat), final(arena)@, r),
        old(arena)@.leads_to(final(arena)@),
{
    let trial = key_trial(arena, q, codes, fuel)?;
    Ok(trial.cost)
}

/// What each code costs at the end of the string. Every trial starts from the
/// same arena, which stays as it is.
pub fn key_costs(arena: &Arena, q: u32, codes: &Vec<u64>, fuel: u64) -> (r: Result<
    Vec<u64>,
    AllocError,
>)
    requires
        arena@.wf(),
        arena@.live(q),
    ensures
        match r {
            Ok(costs) => arena@.key_costs(q, codes@, fuel as nat, Seq::empty()) == Ok::<
                Seq<u64>,
                AllocError,
            >(costs@) && costs@.len() == KEY_CODES && arena@.are_costs(
                q,
                codes@,
                fuel as nat,
                costs@,
            ),
            Err(e) => arena@.key_costs(q, codes@, fuel as nat, Seq::empty()) == Err::<
                Seq<u64>,
                AllocError,
            >(e),
        },
{
    let ghost goal = arena@.key_costs(q, codes@, fuel as nat, Seq::empty());
    let mut costs: Vec<u64> = Vec::new();
    assert(costs@ =~= Seq::empty());
    while costs.len() < KEY_CODES
        invariant
            arena@.wf(),
            arena@.live(q),
            costs@.len() <= KEY_CODES,
            goal == arena@.key_costs(q, codes@, fuel as nat, Seq::empty()),
            goal == arena@.key_costs(q, codes@, fuel as nat, costs@),
            arena@.are_costs(q, codes@, fuel as nat, costs@),
        decreases KEY_CODES - costs.len(),
    {
        let mut trial: Vec<u64> = codes.clone();
        assert(trial@ =~= codes@);
        trial.push(costs.len() as u64 + 1);
        let mut copy = arena.copy();
        let cost: u64 = key_cost(&mut copy, q, &trial, fuel)?;
        let ghost known = costs@;
        assert(arena@.is_cost(q, codes@, fuel as nat, known.len() as int, cost));
        costs.push(cost);
        assert forall|k: int| 0 <= k < costs@.len() implies #[trigger] arena@.is_cost(
            q,
            codes@,
            fuel as nat,
            k,
            costs@[k],
        ) by {
            if k < known.len() {
                assert(arena@.is_cost(q, codes@, fuel as nat, k, known[k]));
            }
        }
    }
    Ok(costs)
}

/// Searches the string that the program does the most work on. The arena stays
/// as it is.
pub fn find_key(arena: &Arena, q: u32, fuel: u64) -> (r: Result<Found, AllocError>)
    requires
        arena@.wf(),
        arena@.live(q),
    ensures
        match r {
            Ok(found) => arena@.key_search(q, fuel as nat, Seq::empty(), Seq::empty()) == Ok::<
                FoundView,
                AllocError,
            >(found@) && arena@.is_found(q, fuel as nat, found@),
            Err(e) => arena@.key_search(q, fuel as nat, Seq::empty(), Seq::empty()) == Err::<
                FoundView,
                AllocError,
            >(e),
        },
{
    let ghost goal = arena@.key_search(q, fuel as nat, Seq::empty(), Seq::empty());
    let mut codes: Vec<u64> = Vec::new();
    let mut trials: Vec<Vec<u64>> = Vec::new();
    assert(codes@ =~= Seq::empty());
    assert(lists_of(trials@) =~= Seq::empty());
    proof {
        crate::search::lemma_key_search(arena@, q, fuel as nat, Seq::empty(), Seq::empty());
    }
    while codes.len() < KEY_LENGTH
        invariant
            arena@.wf(),
            arena@.live(q),
            codes@.len() <= KEY_LENGTH,
            goal == arena@.key_search(q, fuel as nat, Seq::empty(), Seq::empty()),
            goal matches Ok(f) ==> arena@.is_found(q, fuel as nat, f),
            goal == arena@.key_search(q, fuel as nat, codes@, lists_of(trials@)),
        decreases KEY_LENGTH - codes.len(),
    {
        let costs = key_costs(arena, q, &codes, fuel)?;
        let next = next_code(&costs);
        let ghost before = trials@;
        trials.push(costs);
        assert(lists_of(trials@) =~= lists_of(before).push(costs@));
        match next {
            None => {
                return Ok(Found { codes, trials, ended: true });
            },
            Some(c) => {
                codes.push(c);
            },
        }
    }
    Ok(Found { codes, trials, ended: false })
}

/// What the program says to a string: `fuel` is for the evaluation up to the
/// next instruction, `step` for each step of reading it.
pub fn try_key(arena: &mut Arena, q: u32, codes: &Vec<u64>, fuel: u64, step: u64) -> (r: Result<
    Reply,
    AllocError,
>)
    requires
        old(arena)@.wf(),
        old(arena)@.live(q),
        step <= u64::MAX / 4,
    ensures
        match r {
            Ok(reply) => old(arena)@.try_key(q, codes@, fuel as nat, step as nat) == Ok::<
                (Heap, ReplyView),
                AllocError,
            >((final(arena)@, reply@)),
            Err(e) => old(arena)@.try_key(q, codes@, fuel as nat, step as nat) == Err::<
                (Heap, ReplyView),
                AllocError,
            >(e),
        },
        old(arena)@.leads_to(final(arena)@),
{
    let mut f: u64 = fuel;
    let next: u32 = key_reply(arena, q, codes, &mut f)?;
    let head = head(arena, next, step)?;
    if head.p1 != Some(1u64) {
        return Ok(Reply { p1: head.p1, p2: None, text: None });
    }
    let mut f1: u64 = step;
    let data: u32 = pair1_fst(arena, head.operand, &mut f1)?;
    let mut f2: u64 = step;
    let p2_node: u32 = pair1_snd(arena, head.tag, &mut f2)?;
    let p2 = decode_church_num(arena, p2_node, step)?;
    if p2 != Some(1u64) {
        return Ok(Reply { p1: head.p1, p2, text: None });
    }
    let text = decode_string(arena, data, step * 4)?;
    Ok(Reply { p1: head.p1, p2, text: Some(text) })
}

} // verus!
