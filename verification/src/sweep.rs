//! Trying a function of three numbers at a few places, to see whether it
//! gives an image.

use vstd::prelude::*;
use vstd::string::{StrSliceExecFns, StringExecFns};
use crate::arena::Arena;
use crate::grid::{sample, Budget, Sample, Unwrap};
use crate::heap::{AllocError, Heap, Outcome};
use crate::text::{describe, to_decimal};
use crate::value::Value;

verus! {

broadcast use crate::heap::group_leads;

/// The fuel for each place.
pub open spec fn sweep_budget() -> Budget {
    Budget { call: 5_000_000, number: 500_000, boolean: 200_000 }
}

/// The places: rows and columns.
pub open spec fn sweep_places() -> Seq<(u64, u64)> {
    seq![(0, 0), (0, 1), (1, 0), (1, 1), (0, 2), (2, 0), (2, 1), (1, 2)]
}

/// The number of characters of an expression that are shown.
pub const SHOWN_CHARS: usize = 60;

/// A place and the value there as text.
pub struct Trial {
    pub row: u64,
    pub col: u64,
    pub text: String,
}

/// The places and values as mathematical objects.
pub open spec fn trials(items: Seq<Trial>) -> Seq<(u64, u64, Seq<char>)> {
    Seq::new(items.len(), |k: int| (items[k].row, items[k].col, items[k].text@))
}

/// The first characters of a text.
pub open spec fn shorten(s: Seq<char>, n: nat) -> Seq<char> {
    if s.len() > n {
        s.take(n as int)
    } else {
        s
    }
}

/// The text at a place, or nothing.
pub open spec fn text_at(items: Seq<(u64, u64, Seq<char>)>, row: u64, col: u64) -> Seq<char>
    decreases items.len(),
{
    if items.len() == 0 {
        Seq::empty()
    } else if items[0].0 == row && items[0].1 == col {
        items[0].2
    } else {
        text_at(items.skip(1), row, col)
    }
}

/// The first two rows differ in one of the first two columns.
pub open spec fn differ(items: Seq<(u64, u64, Seq<char>)>) -> bool {
    text_at(items, 0, 1) != text_at(items, 1, 1) || text_at(items, 0, 0) != text_at(items, 1, 0)
}

impl Heap {
    /// A value as text: the number, a letter for a boolean, or the start of
    /// the expression after a question mark.
    pub open spec fn sample_text(self, s: Sample) -> Seq<char> {
        match s.value {
            Value::Number(n) => crate::text::decimal(n as nat),
            Value::Boolean(true) => "T"@,
            Value::Boolean(false) => "F"@,
            Value::Unknown => "?"@ + shorten(self.describe(s.node, 0), SHOWN_CHARS as nat),
        }
    }

    /// Tries a function of `n`, a row and a column at the places that lie in
    /// an image of `n` rows and columns, after what is in `items`.
    pub open spec fn sweep(
        self,
        f: u32,
        n: u64,
        places: Seq<(u64, u64)>,
        items: Seq<(u64, u64, Seq<char>)>,
    ) -> Outcome<Seq<(u64, u64, Seq<char>)>>
        decreases places.len(),
    {
        if places.len() == 0 {
            Ok((self, items))
        } else {
            let (m, z) = places[0];
            if m >= n || z >= n {
                self.sweep(f, n, places.skip(1), items)
            } else {
                match self.sample(f, seq![n, m, z], Unwrap::Constants, sweep_budget()) {
                    Err(e) => Err(e),
                    Ok((h, s)) => h.sweep(
                        f,
                        n,
                        places.skip(1),
                        items.push((m, z, h.sample_text(s))),
                    ),
                }
            }
        }
    }
}

/// The first characters of a text.
pub fn shortened(s: &str, n: usize) -> (r: String)
    ensures
        r@ == shorten(s@, n as nat),
{
    if s.unicode_len() > n {
        let t = s.substring_char(0, n).to_owned();
        assert(t@ =~= s@.take(n as int));
        t
    } else {
        s.to_owned()
    }
}

/// A value as text.
pub fn sample_text(arena: &Arena, s: &Sample) -> (r: String)
    requires
        arena@.wf(),
        arena@.live(s.node),
    ensures
        r@ == arena@.sample_text(*s),
{
    match s.value {
        Value::Number(n) => to_decimal(n),
        Value::Boolean(true) => "T".to_owned(),
        Value::Boolean(false) => "F".to_owned(),
        Value::Unknown => {
            let d = describe(arena, s.node, 0);
            let d = shortened(d.as_str(), SHOWN_CHARS);
            let mut r = "?".to_owned();
            r.append(d.as_str());
            r
        },
    }
}

/// Tries a function of `n`, a row and a column at a few places.
pub fn sweep(arena: &mut Arena, f: u32, n: u64) -> (r: Result<Vec<Trial>, AllocError>)
    requires
        old(arena)@.wf(),
        old(arena)@.live(f),
    ensures
        match r {
            Ok(items) => old(arena)@.sweep(f, n, sweep_places(), Seq::empty()) == Ok::<
                (Heap, Seq<(u64, u64, Seq<char>)>),
                AllocError,
            >((final(arena)@, trials(items@))),
            Err(e) => old(arena)@.sweep(f, n, sweep_places(), Seq::empty()) == Err::<
                (Heap, Seq<(u64, u64, Seq<char>)>),
                AllocError,
            >(e),
        },
        old(arena)@.leads_to(final(arena)@),
{
    let ghost h0 = arena@;
    let ghost goal = h0.sweep(f, n, sweep_places(), Seq::empty());
    let places: [(u64, u64); 8] = [
        (0, 0),
        (0, 1),
        (1, 0),
        (1, 1),
        (0, 2),
        (2, 0),
        (2, 1),
        (1, 2),
    ];
    let budget = Budget { call: 5_000_000, number: 500_000, boolean: 200_000 };
    let mut items: Vec<Trial> = Vec::new();
    let mut k: usize = 0;
    proof {
        crate::heap::lemma_leads_refl(h0);
        assert(places@ =~= sweep_places());
        assert(sweep_places().skip(0) =~= sweep_places());
        assert(trials(items@) =~= Seq::empty());
    }
    while k < 8
        invariant
            k <= 8,
            places@ == sweep_places(),
            budget == sweep_budget(),
            h0 == old(arena)@,
            h0.live(f),
            h0.leads_to(arena@),
            arena@.wf(),
            goal == h0.sweep(f, n, sweep_places(), Seq::empty()),
            goal == arena@.sweep(f, n, sweep_places().skip(k as int), trials(items@)),
        decreases 8 - k,
    {
        let (m, z) = places[k];
        let ghost before = trials(items@);
        proof {
            let rest = sweep_places().skip(k as int);
            assert(rest.skip(1) =~= sweep_places().skip(k + 1));
            assert(rest[0] == places@[k as int]);
        }
        if m < n && z < n {
            let args: [u64; 3] = [n, m, z];
            assert(args@ =~= seq![n, m, z]);
            let s = sample(arena, f, &args, Unwrap::Constants, budget)?;
            let text = sample_text(arena, &s);
            items.push(Trial { row: m, col: z, text });
            assert(trials(items@) =~= before.push((m, z, arena@.sample_text(s))));
        }
        k += 1;
    }
    assert(sweep_places().skip(8) =~= Seq::empty());
    Ok(items)
}

/// The text at a place, or nothing.
pub fn trial_text(items: &Vec<Trial>, row: u64, col: u64) -> (s: String)
    ensures
        s@ == text_at(trials(items@), row, col),
{
    let ghost all = trials(items@);
    let mut k: usize = 0;
    assert(all.skip(0) =~= all);
    while k < items.len()
        invariant
            k <= items@.len(),
            all == trials(items@),
            text_at(all, row, col) == text_at(all.skip(k as int), row, col),
        decreases items.len() - k,
    {
        proof {
            assert(all.skip(k as int).skip(1) =~= all.skip(k + 1));
        }
        if items[k].row == row && items[k].col == col {
            return items[k].text.clone();
        }
        k += 1;
    }
    assert(all.skip(k as int) =~= Seq::empty());
    String::new()
}

/// Whether the first two rows differ: an image, rather than a mere gradient.
pub fn rows_differ(items: &Vec<Trial>) -> (d: bool)
    ensures
        d == differ(trials(items@)),
{
    trial_text(items, 0, 1) != trial_text(items, 1, 1) || trial_text(items, 0, 0) != trial_text(
        items,
        1,
        0,
    )
}

} // verus!
