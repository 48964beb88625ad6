//! Integers in two's complement, and strings.

use vstd::prelude::*;
use vstd::arithmetic::power2::pow2;
use crate::arena::Arena;
use crate::decode::{decode_scott_num, saturating_minus, share};
use crate::heap::{AllocError, Heap, Outcome};
use crate::select::{decode_bool, pair_fst, pair_snd};
use crate::text::describe;

verus! {

broadcast use crate::heap::group_leads;

/// The integer with these binary digits in two's complement, the lowest
/// first: the last digit counts negative.
pub open spec fn signed_value(bits: Seq<bool>) -> int {
    if bits.len() == 0 {
        0
    } else {
        crate::decode::value(bits.drop_last()) - if bits.last() {
            pow2((bits.len() - 1) as nat)
        } else {
            0
        }
    }
}

/// The digits above the lowest one count twice.
proof fn lemma_signed_step(bits: Seq<bool>)
    requires
        bits.len() > 1,
    ensures
        signed_value(bits) == 2 * signed_value(bits.skip(1)) + if bits[0] {
            1int
        } else {
            0
        },
{
    assert(bits.drop_last().skip(1) =~= bits.skip(1).drop_last());
    vstd::arithmetic::power2::lemma_pow2_unfold((bits.len() - 1) as nat);
}

/// At most 64 digits fit into a signed word.
pub proof fn lemma_signed_fits(bits: Seq<bool>)
    requires
        bits.len() <= 64,
    ensures
        i64::MIN <= signed_value(bits) <= i64::MAX,
{
    if bits.len() > 0 {
        let k = (bits.len() - 1) as nat;
        crate::decode::lemma_value_bound(bits.drop_last());
        if k < 63 {
            vstd::arithmetic::power2::lemma_pow2_strictly_increases(k, 63);
        }
        assert(pow2(63) == 0x8000_0000_0000_0000) by {
            vstd::arithmetic::power2::lemma2_to64_rest();
        }
    }
}

/// The integer with these binary digits in two's complement.
pub fn bits_integer(bits: &Vec<bool>) -> (n: i64)
    requires
        bits@.len() <= 64,
    ensures
        n == signed_value(bits@),
{
    if bits.len() == 0 {
        return 0;
    }
    let mut i: usize = bits.len() - 1;
    let mut n: i64 = if bits[i] {
        -1
    } else {
        0
    };
    proof {
        let s = bits@.skip(i as int);
        assert(s.drop_last() =~= Seq::empty());
        assert(s.last() == bits@[i as int]);
        vstd::arithmetic::power2::lemma2_to64();
    }
    while i > 0
        invariant
            i < bits@.len() <= 64,
            n == signed_value(bits@.skip(i as int)),
        decreases i,
    {
        i -= 1;
        proof {
            let s = bits@.skip(i as int);
            assert(s.skip(1) =~= bits@.skip(i + 1));
            assert(s[0] == bits@[i as int]);
            lemma_signed_step(s);
            lemma_signed_fits(s);
        }
        n = 2 * n + if bits[i] {
            1
        } else {
            0
        };
    }
    assert(bits@.skip(0) =~= bits@);
    n
}

/// The number of characters whose expression is noted.
pub const NOTED_CHARS: usize = 5;

/// How a character of a string was read.
pub struct Note {
    /// Its expression before it was read, if it is among the first.
    pub text: Option<String>,
    /// Its value as a binary number.
    pub number: Option<u64>,
    /// Its code.
    pub code: Option<i64>,
}

/// A note as a mathematical object.
pub struct NoteView {
    pub text: Option<Seq<char>>,
    pub number: Option<u64>,
    pub code: Option<i64>,
}

impl View for Note {
    type V = NoteView;

    open spec fn view(&self) -> NoteView {
        NoteView {
            text: match self.text {
                Some(s) => Some(s@),
                None => None,
            },
            number: self.number,
            code: self.code,
        }
    }
}

/// The notes that a vector holds.
pub open spec fn notes_of(v: Seq<Note>) -> Seq<NoteView> {
    Seq::new(v.len(), |k: int| v[k]@)
}

/// A string, and how its characters were read, the outermost first.
pub struct Reading {
    pub text: String,
    pub notes: Vec<Note>,
}

impl Heap {
    /// Reads at most `left` bits of a list, after those in `bits`; there is
    /// nothing to read where one of them is no boolean.
    pub open spec fn list_bits(
        self,
        cur: u32,
        left: nat,
        remaining: nat,
        op: nat,
        bits: Seq<bool>,
    ) -> Outcome<Option<Seq<bool>>>
        decreases left,
    {
        if left == 0 || remaining < op * 4 {
            Ok((self, Some(bits)))
        } else {
            match self.decode_bool(cur, op) {
                Err(e) => Err(e),
                Ok((h1, Some(false))) => Ok((h1, Some(bits))),
                Ok((h1, _)) => match h1.pair_fst(cur, op) {
                    Err(e) => Err(e),
                    Ok((h2, (first, f1))) => {
                        let rem1 = crate::decode::minus(remaining, crate::decode::minus(op, f1));
                        match h2.decode_bool(first, op) {
                            Err(e) => Err(e),
                            Ok((h3, None)) => Ok((h3, None)),
                            Ok((h3, Some(bit))) => match h3.pair_snd(cur, op) {
                                Err(e) => Err(e),
                                Ok((h4, (rest, f2))) => {
                                    let rem2 = crate::decode::minus(
                                        rem1,
                                        crate::decode::minus(op, f2),
                                    );
                                    h4.list_bits(rest, (left - 1) as nat, rem2, op, bits.push(bit))
                                },
                            },
                        }
                    },
                },
            }
        }
    }

    /// Reads an integer of at most 64 digits.
    #[verifier::opaque]
    pub open spec fn decode_integer(self, node: u32, fuel: nat) -> Outcome<Option<i64>> {
        let op = crate::decode::step_fuel(fuel, 200, 10_000);
        match self.list_bits(node, 64, fuel, op, Seq::empty()) {
            Err(e) => Err(e),
            Ok((h, None)) => Ok((h, None)),
            Ok((h, Some(bits))) => Ok((h, Some(signed_value(bits) as i64))),
        }
    }

    /// Reads a number as a character code, or else an integer.
    pub open spec fn char_code(self, node: u32, fuel: nat) -> Outcome<Option<i64>> {
        match self.decode_scott_num(node, fuel) {
            Err(e) => Err(e),
            Ok((h, Some(n))) => Ok((h, Some(wrap(n)))),
            Ok((h, None)) => h.decode_integer(node, fuel),
        }
    }

    /// Reads the characters of a list, at most `left`, after those in `chars`.
    pub open spec fn list_chars(
        self,
        cur: u32,
        left: nat,
        remaining: nat,
        op: nat,
        chars: Seq<char>,
    ) -> Outcome<Seq<char>>
        decreases left,
    {
        if left == 0 || remaining < op * 6 {
            Ok((self, chars))
        } else {
            match self.decode_bool(cur, op) {
                Err(e) => Err(e),
                Ok((h1, Some(false))) => Ok((h1, chars)),
                Ok((h1, _)) => match h1.pair_fst(cur, op) {
                    Err(e) => Err(e),
                    Ok((h2, (val, f1))) => {
                        let rem1 = crate::decode::minus(remaining, crate::decode::minus(op, f1));
                        match h2.pair_snd(cur, op) {
                            Err(e) => Err(e),
                            Ok((h3, (prev, f2))) => {
                                let rem2 = crate::decode::minus(
                                    rem1,
                                    crate::decode::minus(op, f2),
                                );
                                match h3.char_code(val, op * 3) {
                                    Err(e) => Err(e),
                                    Ok((h4, code)) => h4.list_chars(
                                        prev,
                                        (left - 1) as nat,
                                        rem2,
                                        op,
                                        chars.push(char_for(code)),
                                    ),
                                }
                            },
                        }
                    },
                },
            }
        }
    }

    /// Notes on the characters of a list, at most `left`, after those in
    /// `notes`.
    pub open spec fn list_notes(
        self,
        cur: u32,
        left: nat,
        remaining: nat,
        op: nat,
        notes: Seq<NoteView>,
    ) -> Outcome<Seq<NoteView>>
        decreases left,
    {
        if left == 0 || remaining < op * 6 {
            Ok((self, notes))
        } else {
            match self.decode_bool(cur, op) {
                Err(e) => Err(e),
                Ok((h1, Some(false))) => Ok((h1, notes)),
                Ok((h1, _)) => match h1.pair_fst(cur, op) {
                    Err(e) => Err(e),
                    Ok((h2, (val, f1))) => {
                        let rem1 = crate::decode::minus(remaining, crate::decode::minus(op, f1));
                        match h2.pair_snd(cur, op) {
                            Err(e) => Err(e),
                            Ok((h3, (prev, f2))) => {
                                let rem2 = crate::decode::minus(
                                    rem1,
                                    crate::decode::minus(op, f2),
                                );
                                match h3.char_note(val, op * 3, notes.len() < NOTED_CHARS) {
                                    Err(e) => Err(e),
                                    Ok((h4, note)) => h4.list_notes(
                                        prev,
                                        (left - 1) as nat,
                                        rem2,
                                        op,
                                        notes.push(note),
                                    ),
                                }
                            },
                        }
                    },
                },
            }
        }
    }

    /// A note on a character, with its expression if `shown`.
    pub open spec fn char_note(self, val: u32, fuel: nat, shown: bool) -> Outcome<NoteView> {
        let text = if shown {
            Some(self.describe(val, 0))
        } else {
            None
        };
        match self.decode_scott_num(val, fuel) {
            Err(e) => Err(e),
            Ok((h, Some(n))) => Ok((h, NoteView { text, number: Some(n), code: Some(wrap(n)) })),
            Ok((h, None)) => match h.decode_integer(val, fuel) {
                Err(e) => Err(e),
                Ok((h1, code)) => Ok((h1, NoteView { text, number: None, code })),
            },
        }
    }

    /// Notes on the characters of a string, as they come in the list.
    pub open spec fn string_notes(self, node: u32, fuel: nat) -> Outcome<Seq<NoteView>> {
        let op = crate::decode::step_fuel(fuel, 100, 100_000);
        self.list_notes(node, 10_000, fuel, op, Seq::empty())
    }

    /// Reads a string; its characters come last to first.
    pub open spec fn decode_string(self, node: u32, fuel: nat) -> Outcome<Seq<char>> {
        let op = crate::decode::step_fuel(fuel, 100, 100_000);
        match self.list_chars(node, 10_000, fuel, op, Seq::empty()) {
            Err(e) => Err(e),
            Ok((h, chars)) => Ok((h, chars.reverse())),
        }
    }
}

/// The bits of a word, as a signed one.
pub open spec fn wrap(n: u64) -> i64 {
    if n <= i64::MAX {
        n as i64
    } else {
        (n - 0x1_0000_0000_0000_0000) as i64
    }
}

/// The code is that of a character.
pub open spec fn is_scalar(code: int) -> bool {
    0 <= code < 0xd800 || 0xe000 <= code < 0x11_0000
}

/// The character with a code, or a question mark.
pub open spec fn char_for(code: Option<i64>) -> char {
    match code {
        Some(n) => if is_scalar(n as int) {
            n as char
        } else {
            '?'
        },
        None => '?',
    }
}

/// `char::from_u32`: the character with the code, where the code is that of a
/// Unicode scalar value; nothing otherwise.
#[verifier::external_body]
fn char_from_u32(code: u32) -> (c: Option<char>)
    ensures
        c is Some <==> is_scalar(code as int),
        c matches Some(x) ==> x == code as char,
{
    char::from_u32(code)
}

/// `String::push`: appends one character.
#[verifier::external_body]
pub(crate) fn push_char(s: &mut String, c: char)
    ensures
        final(s)@ == old(s)@.push(c),
{
    s.push(c)
}

/// The bits of a word, as a signed one.
fn wrap_word(n: u64) -> (i: i64)
    ensures
        i == wrap(n),
{
    if n <= 0x7fff_ffff_ffff_ffff {
        n as i64
    } else {
        let d: u64 = 0xffff_ffff_ffff_ffff - n;
        -(d as i64) - 1
    }
}

/// The code lies in the range of character codes.
pub fn in_code_range(code: i64) -> (b: bool)
    ensures
        b == (0 <= code < 0x11_0000),
{
    0 <= code && code < 0x11_0000
}

/// The character with a code, or a question mark.
pub fn char_of(code: Option<i64>) -> (c: char)
    ensures
        c == char_for(code),
{
    match code {
        Some(n) => {
            if in_code_range(n) {
                match char_from_u32(n as u32) {
                    Some(c) => c,
                    None => '?',
                }
            } else {
                '?'
            }
        },
        None => '?',
    }
}

/// Reads an integer from a list of bits, the lowest first, the last one being
/// the sign.
pub fn decode_integer(arena: &mut Arena, node: u32, fuel: u64) -> (r: Result<
    Option<i64>,
    AllocError,
>)
    requires
        old(arena)@.wf(),
        old(arena)@.live(node),
    ensures
        Heap::ran(old(arena)@.decode_integer(node, fuel as nat), final(arena)@, r),
        old(arena)@.leads_to(final(arena)@),
{
    proof {
        reveal(Heap::decode_integer);
        crate::heap::lemma_leads_refl(arena@);
    }
    let op: u64 = share(fuel, 200, 10_000);
    let ghost goal = arena@.list_bits(node, 64, fuel as nat, op as nat, Seq::empty());
    let mut bits: Vec<bool> = Vec::new();
    let mut current: u32 = node;
    let mut remaining: u64 = fuel;
    let mut k: usize = 0;
    assert(bits@ =~= Seq::empty());
    while k < 64
        invariant_except_break
            k <= 64,
            arena@.wf(),
            arena@.live(current),
            old(arena)@.leads_to(arena@),
            op == crate::decode::step_fuel(fuel as nat, 200, 10_000),
            bits@.len() == k,
            goal == old(arena)@.list_bits(node, 64, fuel as nat, op as nat, Seq::empty()),
            goal == arena@.list_bits(
                current,
                (64 - k) as nat,
                remaining as nat,
                op as nat,
                bits@,
            ),
        ensures
            bits@.len() <= 64,
            old(arena)@.leads_to(arena@),
            goal == Ok::<(Heap, Option<Seq<bool>>), AllocError>((arena@, Some(bits@))),
        decreases 64 - k,
    {
        proof {
            reveal(Heap::decode_integer);
        }
        if remaining < op * 4 {
            break;
        }
        let nil = decode_bool(arena, current, op)?;
        if let Some(false) = nil {
            break;
        }
        let mut f1: u64 = op;
        let bit_node: u32 = pair_fst(arena, current, &mut f1)?;
        remaining = saturating_minus(remaining, op - f1);
        match decode_bool(arena, bit_node, op)? {
            Some(b) => {
                bits.push(b);
            },
            None => {
                return Ok(None);
            },
        }
        let mut f2: u64 = op;
        let rest: u32 = pair_snd(arena, current, &mut f2)?;
        remaining = saturating_minus(remaining, op - f2);
        current = rest;
        k += 1;
    }
    proof {
        lemma_signed_fits(bits@);
    }
    Ok(Some(bits_integer(&bits)))
}

/// Reads a character, and notes how.
fn char_note(arena: &mut Arena, val: u32, fuel: u64, shown: bool) -> (r: Result<Note, AllocError>)
    requires
        old(arena)@.wf(),
        old(arena)@.live(val),
    ensures
        match r {
            Ok(n) => old(arena)@.char_note(val, fuel as nat, shown) == Ok::<
                (Heap, NoteView),
                AllocError,
            >((final(arena)@, n@)) && old(arena)@.char_code(val, fuel as nat) == Ok::<
                (Heap, Option<i64>),
                AllocError,
            >((final(arena)@, n.code)),
            Err(e) => old(arena)@.char_note(val, fuel as nat, shown) == Err::<
                (Heap, NoteView),
                AllocError,
            >(e) && old(arena)@.char_code(val, fuel as nat) == Err::<
                (Heap, Option<i64>),
                AllocError,
            >(e),
        },
        old(arena)@.leads_to(final(arena)@),
{
    let text = if shown {
        Some(describe(arena, val, 0))
    } else {
        None
    };
    match decode_scott_num(arena, val, fuel)? {
        Some(n) => Ok(Note { text, number: Some(n), code: Some(wrap_word(n)) }),
        None => {
            let code = decode_integer(arena, val, fuel)?;
            Ok(Note { text, number: None, code })
        },
    }
}

/// Reads the characters of a list, and notes how.
fn list_chars(arena: &mut Arena, node: u32, fuel: u64, op: u64) -> (r: Result<
    (Vec<char>, Vec<Note>),
    AllocError,
>)
    requires
        old(arena)@.wf(),
        old(arena)@.live(node),
        op <= u64::MAX / 6,
    ensures
        match r {
            Ok(x) => old(arena)@.list_chars(
                node,
                10_000,
                fuel as nat,
                op as nat,
                Seq::empty(),
            ) == Ok::<(Heap, Seq<char>), AllocError>((final(arena)@, x.0@)) && old(
                arena,
            )@.list_notes(node, 10_000, fuel as nat, op as nat, Seq::empty()) == Ok::<
                (Heap, Seq<NoteView>),
                AllocError,
            >((final(arena)@, notes_of(x.1@))),
            Err(e) => old(arena)@.list_chars(
                node,
                10_000,
                fuel as nat,
                op as nat,
                Seq::empty(),
            ) == Err::<(Heap, Seq<char>), AllocError>(e) && old(arena)@.list_notes(
                node,
                10_000,
                fuel as nat,
                op as nat,
                Seq::empty(),
            ) == Err::<(Heap, Seq<NoteView>), AllocError>(e),
        },
        old(arena)@.leads_to(final(arena)@),
{
    let ghost goal = arena@.list_chars(node, 10_000, fuel as nat, op as nat, Seq::empty());
    let ghost noted = arena@.list_notes(node, 10_000, fuel as nat, op as nat, Seq::empty());
    let mut chars: Vec<char> = Vec::new();
    let mut notes: Vec<Note> = Vec::new();
    let mut current: u32 = node;
    let mut remaining: u64 = fuel;
    let mut k: usize = 0;
    proof {
        crate::heap::lemma_leads_refl(arena@);
        assert(chars@ =~= Seq::empty());
        assert(notes_of(notes@) =~= Seq::empty());
    }
    while k < 10_000
        invariant_except_break
            k <= 10_000,
            arena@.wf(),
            arena@.live(current),
            old(arena)@.leads_to(arena@),
            op <= u64::MAX / 6,
            goal == old(arena)@.list_chars(node, 10_000, fuel as nat, op as nat, Seq::empty()),
            goal == arena@.list_chars(
                current,
                (10_000 - k) as nat,
                remaining as nat,
                op as nat,
                chars@,
            ),
            noted == old(arena)@.list_notes(node, 10_000, fuel as nat, op as nat, Seq::empty()),
            noted == arena@.list_notes(
                current,
                (10_000 - k) as nat,
                remaining as nat,
                op as nat,
                notes_of(notes@),
            ),
        ensures
            old(arena)@.leads_to(arena@),
            goal == Ok::<(Heap, Seq<char>), AllocError>((arena@, chars@)),
            noted == Ok::<(Heap, Seq<NoteView>), AllocError>((arena@, notes_of(notes@))),
        decreases 10_000 - k,
    {
        if remaining < op * 6 {
            break;
        }
        let nil = decode_bool(arena, current, op)?;
        if let Some(false) = nil {
            break;
        }
        let mut f1: u64 = op;
        let val: u32 = pair_fst(arena, current, &mut f1)?;
        remaining = saturating_minus(remaining, op - f1);
        let mut f2: u64 = op;
        let prev: u32 = pair_snd(arena, current, &mut f2)?;
        remaining = saturating_minus(remaining, op - f2);
        let note = char_note(arena, val, op * 3, notes.len() < NOTED_CHARS)?;
        chars.push(char_of(note.code));
        let ghost before = notes@;
        notes.push(note);
        assert(notes_of(notes@) =~= notes_of(before).push(note@));
        current = prev;
        k += 1;
    }
    Ok((chars, notes))
}

/// Reads a string from a list of character codes. The list starts with the
/// character that was added last.
pub fn decode_string(arena: &mut Arena, node: u32, fuel: u64) -> (r: Result<String, AllocError>)
    requires
        old(arena)@.wf(),
        old(arena)@.live(node),
    ensures
        match r {
            Ok(s) => old(arena)@.decode_string(node, fuel as nat) == Ok::<
                (Heap, Seq<char>),
                AllocError,
            >((final(arena)@, s@)),
            Err(e) => old(arena)@.decode_string(node, fuel as nat) == Err::<
                (Heap, Seq<char>),
                AllocError,
            >(e),
        },
        old(arena)@.leads_to(final(arena)@),
{
    let reading = read_string(arena, node, fuel)?;
    Ok(reading.text)
}

/// Reads a string as [`decode_string`] does, and notes how each character was
/// read.
pub fn read_string(arena: &mut Arena, node: u32, fuel: u64) -> (r: Result<Reading, AllocError>)
    requires
        old(arena)@.wf(),
        old(arena)@.live(node),
    ensures
        match r {
            Ok(x) => old(arena)@.decode_string(node, fuel as nat) == Ok::<
                (Heap, Seq<char>),
                AllocError,
            >((final(arena)@, x.text@)) && old(arena)@.string_notes(node, fuel as nat) == Ok::<
                (Heap, Seq<NoteView>),
                AllocError,
            >((final(arena)@, notes_of(x.notes@))),
            Err(e) => old(arena)@.decode_string(node, fuel as nat) == Err::<
                (Heap, Seq<char>),
                AllocError,
            >(e) && old(arena)@.string_notes(node, fuel as nat) == Err::<
                (Heap, Seq<NoteView>),
                AllocError,
            >(e),
        },
        old(arena)@.leads_to(final(arena)@),
{
    let op: u64 = share(fuel, 100, 100_000);
    let (chars, notes) = list_chars(arena, node, fuel, op)?;
    let mut s = String::new();
    let mut i: usize = chars.len();
    proof {
        assert(s@ =~= chars@.reverse().take(0));
    }
    while i > 0
        invariant
            i <= chars@.len(),
            s@ == chars@.reverse().take(chars@.len() - i),
        decreases i,
    {
        i -= 1;
        proof {
            let n = chars@.len() - i;
            assert(chars@.reverse().take(n) =~= chars@.reverse().take(n - 1).push(chars@[i as int]));
        }
        push_char(&mut s, chars[i]);
    }
    proof {
        assert(chars@.reverse().take(chars@.len() as int) =~= chars@.reverse());
    }
    Ok(Reading { text: s, notes })
}

} // verus!
