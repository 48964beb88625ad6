//! Input and output instructions.
//!
//! A program's value is a pair of a tag and an operand; the tag is a pair of
//! two Church numerals. The first says what to do: `0` halts, `1` writes and
//! `2` reads. The second says what is written: `0` an integer, `1` a string,
//! `2` an image. These pairs take one argument.

use vstd::prelude::*;
use vstd::string::StringExecFns;
use crate::arena::Arena;
use crate::church::decode_church_num;
use crate::decode::decode_scott_num;
use crate::encode::{make_false, make_pair, make_scott_num, Recipe};
use crate::heap::{AllocError, ARENA_HARD_LIMIT, Heap, Outcome};
use crate::integer::{char_of, decode_integer, push_char};
use crate::node::APP;
use crate::select::{decode_bool, pair1_fst, pair1_snd, pair_fst, pair_snd};
use crate::text::{describe, to_decimal, to_signed_decimal};

verus! {

broadcast use crate::heap::group_leads;

/// By what factor the arena may grow.
pub const GROWTH_MULTIPLIER: usize = 8;

/// By how many nodes the arena may grow in any case.
pub const MIN_HEADROOM: usize = 50_000_000;

/// The limit for an arena of `start` nodes: eight times as many, fifty million
/// more at least, but no more than an arena can have. A limit that is asked
/// for takes precedence.
pub open spec fn io_limit_of(start: nat, asked: Option<usize>) -> usize {
    match asked {
        Some(l) => Heap::failsafe(l),
        None => {
            let most = if start * GROWTH_MULTIPLIER > start + MIN_HEADROOM {
                start * GROWTH_MULTIPLIER
            } else {
                start + MIN_HEADROOM
            };
            if most > ARENA_HARD_LIMIT {
                ARENA_HARD_LIMIT
            } else {
                most as usize
            }
        },
    }
}

/// The limit for an arena of `start` nodes.
pub fn io_limit(start: usize, asked: Option<usize>) -> (limit: usize)
    ensures
        limit == io_limit_of(start as nat, asked),
        1 <= limit <= ARENA_HARD_LIMIT,
{
    match asked {
        Some(l) => if l < 1 {
            1
        } else if l > ARENA_HARD_LIMIT {
            ARENA_HARD_LIMIT
        } else {
            l
        },
        None => {
            if start >= ARENA_HARD_LIMIT {
                return ARENA_HARD_LIMIT;
            }
            let grown: u64 = start as u64 * GROWTH_MULTIPLIER as u64;
            let room: u64 = start as u64 + MIN_HEADROOM as u64;
            let most: u64 = if grown > room {
                grown
            } else {
                room
            };
            if most > ARENA_HARD_LIMIT as u64 {
                ARENA_HARD_LIMIT
            } else {
                most as usize
            }
        },
    }
}

/// An instruction: its parts, and the numerals of its tag as far as they are
/// numerals.
#[derive(Clone, Copy, PartialEq, Eq, Structural, Debug)]
pub struct Instruction {
    pub tag: u32,
    pub operand: u32,
    pub p1_node: u32,
    pub p2_node: u32,
    pub p1: Option<u64>,
    pub p2: Option<u64>,
}

/// What an instruction asks for.
#[derive(Clone, Copy, PartialEq, Eq, Structural, Debug)]
pub enum Action {
    Halt,
    WriteInteger,
    WriteString,
    WriteImage,
    /// Writes something of another kind.
    WriteOther,
    Read,
    /// The first numeral has another value.
    Unknown,
    /// The first part of the tag is no numeral.
    NoNumeral,
}

impl Instruction {
    pub open spec fn action_of(self) -> Action {
        match self.p1 {
            None => Action::NoNumeral,
            Some(p) => if p == 0 {
                Action::Halt
            } else if p == 1 {
                match self.p2 {
                    Some(q) => if q == 0 {
                        Action::WriteInteger
                    } else if q == 1 {
                        Action::WriteString
                    } else if q == 2 {
                        Action::WriteImage
                    } else {
                        Action::WriteOther
                    },
                    None => Action::WriteOther,
                }
            } else if p == 2 {
                Action::Read
            } else {
                Action::Unknown
            },
        }
    }

    /// What the instruction asks for.
    pub fn action(&self) -> (a: Action)
        ensures
            a == self.action_of(),
    {
        match self.p1 {
            None => Action::NoNumeral,
            Some(p) => if p == 0 {
                Action::Halt
            } else if p == 1 {
                match self.p2 {
                    Some(q) => if q == 0 {
                        Action::WriteInteger
                    } else if q == 1 {
                        Action::WriteString
                    } else if q == 2 {
                        Action::WriteImage
                    } else {
                        Action::WriteOther
                    },
                    None => Action::WriteOther,
                }
            } else if p == 2 {
                Action::Read
            } else {
                Action::Unknown
            },
        }
    }
}

/// The number of instructions that are carried out at most.
pub const MAX_STEPS: u32 = 100;

/// What follows an instruction.
#[derive(Clone, Copy, PartialEq, Eq, Structural, Debug)]
pub enum Then {
    /// Nothing: the program has halted, or its instruction is none.
    End,
    /// The instruction with this number.
    Step(u32),
    /// Nothing: too many instructions were carried out.
    TooMany,
}

/// What to do for an instruction, and what follows.
#[derive(Clone, Copy, PartialEq, Eq, Structural, Debug)]
pub struct Move {
    pub action: Action,
    pub then: Then,
}

/// An instruction that reads or writes is carried out, and the next one
/// follows if there may be one more. Any other instruction is the last.
pub open spec fn move_of(step: u32, ins: Instruction) -> Move {
    let action = ins.action_of();
    Move {
        action,
        then: if action == Action::Halt || action == Action::Unknown || action
            == Action::NoNumeral {
            Then::End
        } else if step >= MAX_STEPS {
            Then::TooMany
        } else {
            Then::Step((step + 1) as u32)
        },
    }
}

/// What to do for the instruction with the number `step`, and what follows.
pub fn next_move(step: u32, ins: &Instruction) -> (m: Move)
    ensures
        m == move_of(step, *ins),
{
    let action = ins.action();
    let then = match action {
        Action::Halt | Action::Unknown | Action::NoNumeral => Then::End,
        _ => if step >= MAX_STEPS {
            Then::TooMany
        } else {
            Then::Step(step + 1)
        },
    };
    Move { action, then }
}

/// In which order a list cell holds its value and the rest.
#[derive(Clone, Copy, PartialEq, Eq, Structural, Debug)]
pub enum Convention {
    ValueFirst,
    RestFirst,
}

/// The number of elements whose expression is kept.
pub const SHOWN_ELEMENTS: usize = 40;

/// The number of elements that are scanned.
pub const SCANNED_ELEMENTS: usize = 200;

/// An element of a list, read as a number and as an integer.
pub struct Element {
    pub number: Option<u64>,
    pub integer: Option<i64>,
    /// Its expression, if it is among the first.
    pub text: Option<String>,
}

/// An element as a mathematical object.
pub struct ElementView {
    pub number: Option<u64>,
    pub integer: Option<i64>,
    pub text: Option<Seq<char>>,
}

impl View for Element {
    type V = ElementView;

    open spec fn view(&self) -> ElementView {
        ElementView {
            number: self.number,
            integer: self.integer,
            text: match self.text {
                Some(s) => Some(s@),
                None => None,
            },
        }
    }
}

/// The elements as mathematical objects.
pub open spec fn views(items: Seq<Element>) -> Seq<ElementView> {
    Seq::new(items.len(), |k: int| items[k]@)
}

/// The elements of a list, and whether its end was seen.
pub struct Scan {
    pub items: Vec<Element>,
    pub ended: bool,
}

impl Heap {
    /// Takes an instruction apart.
    pub open spec fn instruction(self, current: u32, fuel: nat) -> Outcome<Instruction> {
        match self.pair1_fst(current, fuel) {
            Err(e) => Err(e),
            Ok((h1, (tag, _))) => match h1.pair1_snd(current, fuel) {
                Err(e) => Err(e),
                Ok((h2, (operand, _))) => match h2.pair1_fst(tag, fuel) {
                    Err(e) => Err(e),
                    Ok((h3, (p1_node, _))) => match h3.pair1_snd(tag, fuel) {
                        Err(e) => Err(e),
                        Ok((h4, (p2_node, _))) => match h4.decode_church_num(p1_node, fuel) {
                            Err(e) => Err(e),
                            Ok((h5, p1)) => match h5.decode_church_num(p2_node, fuel) {
                                Err(e) => Err(e),
                                Ok((h6, p2)) => Ok(
                                    (
                                        h6,
                                        Instruction { tag, operand, p1_node, p2_node, p1, p2 },
                                    ),
                                ),
                            },
                        },
                    },
                },
            },
        }
    }

    /// The data and the continuation of an instruction that writes.
    pub open spec fn output_parts(self, operand: u32, fuel: nat) -> Outcome<(u32, u32)> {
        match self.pair1_fst(operand, fuel) {
            Err(e) => Err(e),
            Ok((h1, (data, _))) => match h1.pair1_snd(operand, fuel) {
                Err(e) => Err(e),
                Ok((h2, (cont, _))) => Ok((h2, (data, cont))),
            },
        }
    }

    /// The value and the rest of a list cell.
    pub open spec fn cell_parts(self, conv: Convention, cur: u32, fuel: nat) -> Outcome<(u32, u32)> {
        match conv {
            Convention::ValueFirst => match self.pair_fst(cur, fuel) {
                Err(e) => Err(e),
                Ok((h1, (value, _))) => match h1.pair_snd(cur, fuel) {
                    Err(e) => Err(e),
                    Ok((h2, (rest, _))) => Ok((h2, (value, rest))),
                },
            },
            Convention::RestFirst => match self.pair_snd(cur, fuel) {
                Err(e) => Err(e),
                Ok((h1, (value, _))) => match h1.pair_fst(cur, fuel) {
                    Err(e) => Err(e),
                    Ok((h2, (rest, _))) => Ok((h2, (value, rest))),
                },
            },
        }
    }

    /// Reads at most `left` elements of a list, after those in `items`.
    pub open spec fn scan(
        self,
        conv: Convention,
        cur: u32,
        left: nat,
        fuel: nat,
        items: Seq<ElementView>,
    ) -> Outcome<(Seq<ElementView>, bool)>
        decreases left,
    {
        if left == 0 {
            Ok((self, (items, false)))
        } else {
            match self.decode_bool(cur, fuel) {
                Err(e) => Err(e),
                Ok((h1, Some(false))) => Ok((h1, (items, true))),
                Ok((h1, _)) => match h1.cell_parts(conv, cur, fuel) {
                    Err(e) => Err(e),
                    Ok((h2, (value, rest))) => match h2.decode_scott_num(value, fuel) {
                        Err(e) => Err(e),
                        Ok((h3, number)) => match h3.decode_integer(value, fuel) {
                            Err(e) => Err(e),
                            Ok((h4, integer)) => {
                                let text = if items.len() < SHOWN_ELEMENTS {
                                    Some(h4.describe(value, 0))
                                } else {
                                    None
                                };
                                h4.scan(
                                    conv,
                                    rest,
                                    (left - 1) as nat,
                                    fuel,
                                    items.push(ElementView { number, integer, text }),
                                )
                            },
                        },
                    },
                },
            }
        }
    }

    /// Makes a list of numbers, the first one outermost.
    pub open spec fn make_list(self, codes: Seq<u64>) -> Outcome<u32>
        decreases codes.len(),
    {
        if codes.len() == 0 {
            self.build(Recipe::no())
        } else {
            match self.make_list(codes.skip(1)) {
                Err(e) => Err(e),
                Ok((h1, rest)) => match h1.make_scott_num(codes[0] as nat) {
                    Err(e) => Err(e),
                    Ok((h2, n)) => h2.build(Recipe::pair(n, rest)),
                },
            }
        }
    }

    /// Continues after an instruction that reads.
    pub open spec fn resume(self, operand: u32, input: u32, fuel: nat) -> Outcome<(u32, nat)> {
        match self.apply(operand, input) {
            Err(e) => Err(e),
            Ok((h, app)) => h.eval(app, fuel),
        }
    }
}

/// Takes an instruction apart.
pub fn read_instruction(arena: &mut Arena, current: u32, fuel: u64) -> (r: Result<
    Instruction,
    AllocError,
>)
    requires
        old(arena)@.wf(),
        old(arena)@.live(current),
    ensures
        Heap::ran(old(arena)@.instruction(current, fuel as nat), final(arena)@, r),
        old(arena)@.leads_to(final(arena)@),
        r matches Ok(i) ==> final(arena)@.live2(i.tag, i.operand) && final(arena)@.live2(
            i.p1_node,
            i.p2_node,
        ),
{
    let mut f1: u64 = fuel;
    let tag: u32 = pair1_fst(arena, current, &mut f1)?;
    let mut f2: u64 = fuel;
    let operand: u32 = pair1_snd(arena, current, &mut f2)?;
    let mut f3: u64 = fuel;
    let p1_node: u32 = pair1_fst(arena, tag, &mut f3)?;
    let mut f4: u64 = fuel;
    let p2_node: u32 = pair1_snd(arena, tag, &mut f4)?;
    let p1 = decode_church_num(arena, p1_node, fuel)?;
    let p2 = decode_church_num(arena, p2_node, fuel)?;
    Ok(Instruction { tag, operand, p1_node, p2_node, p1, p2 })
}

/// The data and the continuation of an instruction that writes.
pub fn output_parts(arena: &mut Arena, operand: u32, fuel: u64) -> (r: Result<
    (u32, u32),
    AllocError,
>)
    requires
        old(arena)@.wf(),
        old(arena)@.live(operand),
    ensures
        Heap::ran(old(arena)@.output_parts(operand, fuel as nat), final(arena)@, r),
        old(arena)@.leads_to(final(arena)@),
        r matches Ok(p) ==> final(arena)@.live2(p.0, p.1),
{
    let mut f1: u64 = fuel;
    let data: u32 = pair1_fst(arena, operand, &mut f1)?;
    let mut f2: u64 = fuel;
    let cont: u32 = pair1_snd(arena, operand, &mut f2)?;
    Ok((data, cont))
}

/// The value and the rest of a list cell.
fn cell_parts(arena: &mut Arena, conv: Convention, cur: u32, fuel: u64) -> (r: Result<
    (u32, u32),
    AllocError,
>)
    requires
        old(arena)@.wf(),
        old(arena)@.live(cur),
    ensures
        Heap::ran(old(arena)@.cell_parts(conv, cur, fuel as nat), final(arena)@, r),
        old(arena)@.leads_to(final(arena)@),
        r matches Ok(p) ==> final(arena)@.live2(p.0, p.1),
{
    let mut f1: u64 = fuel;
    let mut f2: u64 = fuel;
    match conv {
        Convention::ValueFirst => {
            let value: u32 = pair_fst(arena, cur, &mut f1)?;
            let rest: u32 = pair_snd(arena, cur, &mut f2)?;
            Ok((value, rest))
        },
        Convention::RestFirst => {
            let value: u32 = pair_snd(arena, cur, &mut f1)?;
            let rest: u32 = pair_fst(arena, cur, &mut f2)?;
            Ok((value, rest))
        },
    }
}

/// Reads the elements of a list, as far as the first few hundred.
pub fn scan_list(arena: &mut Arena, data: u32, conv: Convention, fuel: u64) -> (r: Result<
    Scan,
    AllocError,
>)
    requires
        old(arena)@.wf(),
        old(arena)@.live(data),
    ensures
        match r {
            Ok(s) => old(arena)@.scan(
                conv,
                data,
                SCANNED_ELEMENTS as nat,
                fuel as nat,
                Seq::empty(),
            ) == Ok::<(Heap, (Seq<ElementView>, bool)), AllocError>(
                (final(arena)@, (views(s.items@), s.ended)),
            ),
            Err(e) => old(arena)@.scan(
                conv,
                data,
                SCANNED_ELEMENTS as nat,
                fuel as nat,
                Seq::empty(),
            ) == Err::<(Heap, (Seq<ElementView>, bool)), AllocError>(e),
        },
        old(arena)@.leads_to(final(arena)@),
        r matches Ok(s) ==> s.items@.len() <= 200 && (!s.ended ==> s.items@.len() == 200) && forall|
            k: int,
        |
            0 <= k < s.items@.len() ==> ((#[trigger] s.items@[k]).text is Some <==> k < 40),
{
    let ghost h0 = arena@;
    let ghost goal = h0.scan(conv, data, SCANNED_ELEMENTS as nat, fuel as nat, Seq::empty());
    proof {
        crate::commands::lemma_scanned(
            h0,
            conv,
            data,
            SCANNED_ELEMENTS as nat,
            fuel as nat,
            Seq::empty(),
        );
        assert(goal matches Ok((_, (r, ended))) ==> forall|k: int|
            0 <= k < r.len() ==> ((#[trigger] r[k]).text is Some <==> k < 40));
    }
    let mut items: Vec<Element> = Vec::new();
    let mut cur: u32 = data;
    let mut k: usize = 0;
    proof {
        crate::heap::lemma_leads_refl(h0);
        assert(views(items@) =~= Seq::empty());
    }
    while k < SCANNED_ELEMENTS
        invariant
            k <= SCANNED_ELEMENTS,
            h0 == old(arena)@,
            h0.leads_to(arena@),
            arena@.wf(),
            arena@.live(cur),
            items@.len() == k,
            goal matches Ok((_, (r, ended))) ==> r.len() <= 200 && (!ended ==> r.len() == 200)
                && forall|k: int|
                0 <= k < r.len() ==> ((#[trigger] r[k]).text is Some <==> k < 40),
            goal == h0.scan(conv, data, SCANNED_ELEMENTS as nat, fuel as nat, Seq::empty()),
            goal == arena@.scan(
                conv,
                cur,
                (SCANNED_ELEMENTS - k) as nat,
                fuel as nat,
                views(items@),
            ),
        decreases SCANNED_ELEMENTS - k,
    {
        let ghost before = views(items@);
        let nil = decode_bool(arena, cur, fuel)?;
        if let Some(false) = nil {
            proof {
                lemma_view_texts(items@);
            }
            return Ok(Scan { items, ended: true });
        }
        let (value, rest) = cell_parts(arena, conv, cur, fuel)?;
        let number = decode_scott_num(arena, value, fuel)?;
        let integer = decode_integer(arena, value, fuel)?;
        let text = if items.len() < SHOWN_ELEMENTS {
            Some(describe(arena, value, 0))
        } else {
            None
        };
        let e = Element { number, integer, text };
        let ghost view = e@;
        items.push(e);
        assert(views(items@) =~= before.push(view));
        cur = rest;
        k += 1;
    }
    proof {
        lemma_view_texts(items@);
    }
    Ok(Scan { items, ended: false })
}

/// The elements have their texts as mathematical objects too.
proof fn lemma_view_texts(items: Seq<Element>)
    ensures
        forall|k: int|
            0 <= k < items.len() ==> ((#[trigger] items[k]).text is Some <==> views(
                items,
            )[k].text is Some),
{
}

/// An element as text: the number, or the integer after an `i`, or a question
/// mark.
pub open spec fn label_of(e: ElementView) -> Seq<char> {
    match e.number {
        Some(n) => crate::text::decimal(n as nat),
        None => match e.integer {
            Some(i) => "i"@ + crate::text::signed_decimal(i as int),
            None => "?"@,
        },
    }
}

/// An element as text.
pub fn element_label(e: &Element) -> (s: String)
    ensures
        s@ == label_of(e@),
{
    match e.number {
        Some(n) => to_decimal(n),
        None => match e.integer {
            Some(i) => {
                let d = to_signed_decimal(i);
                let mut s = "i".to_owned();
                s.append(d.as_str());
                s
            },
            None => "?".to_owned(),
        },
    }
}

/// The elements as characters.
pub fn scan_text(items: &Vec<Element>) -> (s: String)
    ensures
        s@ == Seq::new(items@.len(), |k: int| crate::integer::char_for(items@[k].integer)),
{
    let mut s = String::new();
    let mut k: usize = 0;
    while k < items.len()
        invariant
            k <= items@.len(),
            s@ =~= Seq::new(k as nat, |j: int| crate::integer::char_for(items@[j].integer)),
        decreases items.len() - k,
    {
        let c: char = char_of(items[k].integer);
        push_char(&mut s, c);
        k += 1;
    }
    s
}

/// Makes a list of numbers, the first one outermost: a string of character
/// codes as a program expects it.
pub fn make_list(arena: &mut Arena, codes: &Vec<u64>) -> (r: Result<u32, AllocError>)
    requires
        old(arena)@.wf(),
    ensures
        Heap::ran(old(arena)@.make_list(codes@), final(arena)@, r),
        old(arena)@.leads_to(final(arena)@),
        r matches Ok(i) ==> final(arena)@.live(i),
{
    let ghost h0 = arena@;
    let mut k: usize = codes.len();
    proof {
        assert(codes@.skip(k as int) =~= Seq::empty());
        lemma_list_error(h0, codes@, k as int);
    }
    let mut node: u32 = make_false(arena)?;
    while k > 0
        invariant
            k <= codes@.len(),
            h0 == old(arena)@,
            h0.leads_to(arena@),
            arena@.wf(),
            arena@.live(node),
            h0.make_list(codes@.skip(k as int)) == Ok::<(Heap, u32), AllocError>((arena@, node)),
        decreases k,
    {
        k -= 1;
        proof {
            let s = codes@.skip(k as int);
            assert(s.skip(1) =~= codes@.skip(k + 1));
            assert(s[0] == codes@[k as int]);
            lemma_list_error(h0, codes@, k as int);
        }
        let n: u32 = make_scott_num(arena, codes[k])?;
        node = make_pair(arena, n, node)?;
    }
    assert(codes@.skip(0) =~= codes@);
    Ok(node)
}

/// A list cannot be made where its end cannot.
proof fn lemma_list_error(h: Heap, codes: Seq<u64>, k: int)
    requires
        0 <= k <= codes.len(),
    ensures
        h.make_list(codes.skip(k)) matches Err(e) ==> h.make_list(codes) == Err::<
            (Heap, u32),
            AllocError,
        >(e),
    decreases k,
{
    if k == 0 {
        assert(codes.skip(0) =~= codes);
    } else {
        assert(codes.skip(k - 1).skip(1) =~= codes.skip(k));
        lemma_list_error(h, codes, k - 1);
    }
}

/// Hands an input to an instruction that reads, and evaluates what follows.
pub fn resume(arena: &mut Arena, operand: u32, input: u32, fuel: &mut u64) -> (r: Result<
    u32,
    AllocError,
>)
    requires
        old(arena)@.wf(),
        old(arena)@.live(operand),
        old(arena)@.live(input),
    ensures
        Heap::ran_fuel(
            old(arena)@.resume(operand, input, *old(fuel) as nat),
            final(arena)@,
            r,
            *final(fuel),
        ),
        old(arena)@.leads_to(final(arena)@),
        *final(fuel) <= *old(fuel),
        r matches Ok(i) ==> final(arena)@.live(i),
{
    let app: u32 = arena.allocate(APP, operand, input)?;
    arena.eval(app, fuel)
}

} // verus!
