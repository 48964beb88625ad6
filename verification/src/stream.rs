//! A list of numbers as a stream of bytes.

use vstd::prelude::*;
use crate::arena::Arena;
use crate::decode::{decode_scott_num, list_cell};
use crate::heap::{AllocError, Heap, Outcome};

verus! {

broadcast use crate::heap::group_leads;

/// What comes next on a stream.
#[derive(Clone, Copy, PartialEq, Eq, Structural, Debug)]
pub enum StreamItem {
    /// There is no fuel left.
    Exhausted,
    /// The list ends here.
    End,
    /// A byte.
    Byte(u8),
    /// A number that is no byte.
    TooLarge(u64),
    /// The head of the list is no number.
    NoNumber,
}

/// A place on a stream: the rest of the list, and the fuel that is left.
pub struct Stream {
    pub current: u32,
    pub remaining: u64,
}

/// What a number is on a stream.
pub open spec fn stream_item(n: u64) -> StreamItem {
    if n < 256 {
        StreamItem::Byte(n as u8)
    } else {
        StreamItem::TooLarge(n)
    }
}

impl Heap {
    /// The next item, and the place after it. A number takes the fuel that
    /// taking its cell apart takes.
    pub open spec fn stream_next(self, s: Stream) -> Outcome<(StreamItem, Stream)> {
        if s.remaining == 0 {
            Ok((self, (StreamItem::Exhausted, s)))
        } else {
            match self.cell(s.current, s.remaining as nat / 20) {
                Err(e) => Err(e),
                Ok((h1, None)) => Ok((h1, (StreamItem::End, s))),
                Ok((h1, Some(cell))) => {
                    let rem = cell.left_of(s.remaining as nat, s.remaining as nat / 20);
                    match h1.decode_scott_num(cell.head, rem / 20) {
                        Err(e) => Err(e),
                        Ok((h2, None)) => Ok((h2, (StreamItem::NoNumber, s))),
                        Ok((h2, Some(n))) => Ok(
                            (
                                h2,
                                (
                                    stream_item(n),
                                    Stream { current: cell.tail, remaining: rem as u64 },
                                ),
                            ),
                        ),
                    }
                },
            }
        }
    }

    /// The next items, `left` at most, up to one that is no number.
    pub open spec fn stream_items(self, s: Stream, left: nat) -> Outcome<Seq<StreamItem>>
        decreases left,
    {
        if left == 0 {
            Ok((self, Seq::empty()))
        } else {
            match self.stream_next(s) {
                Err(e) => Err(e),
                Ok((h1, (item, s1))) => if item is Byte || item is TooLarge {
                    match h1.stream_items(s1, (left - 1) as nat) {
                        Err(e) => Err(e),
                        Ok((h2, rest)) => Ok((h2, seq![item] + rest)),
                    }
                } else {
                    Ok((h1, seq![item]))
                },
            }
        }
    }
}

/// The stream that a list holds.
pub fn stream(node: u32, fuel: u64) -> (s: Stream)
    ensures
        s == (Stream { current: node, remaining: fuel }),
{
    Stream { current: node, remaining: fuel }
}

/// Reads the next item of a stream, and moves on behind it where it is a
/// number.
pub fn stream_next(arena: &mut Arena, s: &mut Stream) -> (r: Result<StreamItem, AllocError>)
    requires
        old(arena)@.wf(),
        old(arena)@.live(old(s).current),
    ensures
        match r {
            Ok(item) => old(arena)@.stream_next(*old(s)) == Ok::<
                (Heap, (StreamItem, Stream)),
                AllocError,
            >((final(arena)@, (item, *final(s)))),
            Err(e) => old(arena)@.stream_next(*old(s)) == Err::<
                (Heap, (StreamItem, Stream)),
                AllocError,
            >(e),
        },
        old(arena)@.leads_to(final(arena)@),
        r is Ok ==> final(arena)@.live(final(s).current),
{
    proof {
        crate::heap::lemma_leads_refl(arena@);
    }
    if s.remaining == 0 {
        return Ok(StreamItem::Exhausted);
    }
    let op: u64 = s.remaining / 20;
    match list_cell(arena, s.current, op)? {
        None => Ok(StreamItem::End),
        Some(cell) => {
            let rem: u64 = cell.left_of(s.remaining, op);
            match decode_scott_num(arena, cell.head, rem / 20)? {
                None => Ok(StreamItem::NoNumber),
                Some(n) => {
                    s.current = cell.tail;
                    s.remaining = rem;
                    if n < 256 {
                        Ok(StreamItem::Byte(n as u8))
                    } else {
                        Ok(StreamItem::TooLarge(n))
                    }
                },
            }
        },
    }
}

} // verus!
