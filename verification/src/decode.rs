//! Reading numbers and lists.

use vstd::prelude::*;
use vstd::arithmetic::power2::pow2;
use crate::arena::Arena;
use crate::heap::{AllocError, Heap, Outcome};
use crate::select::{decode_bool, pair_fst, pair_snd};
use crate::term::Term;

verus! {

broadcast use crate::heap::group_leads;

/// The difference, or zero.
pub open spec fn minus(a: nat, b: nat) -> nat {
    if a > b {
        (a - b) as nat
    } else {
        0
    }
}

/// The difference, or zero.
pub(crate) fn saturating_minus(a: u64, b: u64) -> (d: u64)
    ensures
        d == minus(a as nat, b as nat),
{
    if a > b {
        a - b
    } else {
        0
    }
}

/// The number with these binary digits, the lowest first.
pub open spec fn value(bits: Seq<bool>) -> nat
    decreases bits.len(),
{
    if bits.len() == 0 {
        0
    } else {
        (if bits[0] {
            1nat
        } else {
            0nat
        }) + 2 * value(bits.skip(1))
    }
}

/// The share of the fuel for one step of reading a number.
pub open spec fn step_fuel(fuel: nat, parts: nat, least: nat) -> nat {
    if fuel / parts > least {
        fuel / parts
    } else {
        least
    }
}

/// Both parts of a list cell, and the fuel that taking each of them left.
#[derive(Clone, Copy, PartialEq, Eq, Structural, Debug)]
pub struct Cell {
    pub head: u32,
    pub tail: u32,
    pub head_fuel: u64,
    pub tail_fuel: u64,
}

/// A list cell as a mathematical object.
pub struct CellView {
    pub head: u32,
    pub tail: u32,
    pub head_fuel: nat,
    pub tail_fuel: nat,
}

impl View for Cell {
    type V = CellView;

    open spec fn view(&self) -> CellView {
        CellView {
            head: self.head,
            tail: self.tail,
            head_fuel: self.head_fuel as nat,
            tail_fuel: self.tail_fuel as nat,
        }
    }
}

impl CellView {
    /// What is left of the fuel `remaining` when the parts were taken with
    /// `op` units each.
    pub open spec fn left_of(self, remaining: nat, op: nat) -> nat {
        minus(minus(remaining, minus(op, self.head_fuel)), minus(op, self.tail_fuel))
    }
}

impl Cell {
    /// What is left of the fuel `remaining` when the parts were taken with
    /// `op` units each.
    pub(crate) fn left_of(&self, remaining: u64, op: u64) -> (left: u64)
        ensures
            left == self@.left_of(remaining as nat, op as nat),
    {
        let rest: u64 = saturating_minus(remaining, saturating_minus(op, self.head_fuel));
        saturating_minus(rest, saturating_minus(op, self.tail_fuel))
    }
}

impl Heap {
    /// Reads binary digits: those of a chain of pairs, up to a pair of false
    /// and the empty list.
    pub open spec fn scott_bits(
        self,
        cur: u32,
        left: nat,
        remaining: nat,
        op: nat,
        bits: Seq<bool>,
    ) -> Outcome<Seq<bool>>
        decreases left,
    {
        if left == 0 || remaining < op * 4 {
            Ok((self, bits))
        } else {
            match self.pair_fst(cur, op) {
                Err(e) => Err(e),
                Ok((h1, (first, f1))) => {
                    let rem1 = minus(remaining, minus(op, f1));
                    match h1.decode_bool(first, op) {
                        Err(e) => Err(e),
                        Ok((h2, None)) => Ok((h2, bits)),
                        Ok((h2, Some(bit))) => match h2.pair_snd(cur, op) {
                            Err(e) => Err(e),
                            Ok((h3, (second, f2))) => {
                                let rem2 = minus(rem1, minus(op, f2));
                                if bit {
                                    h3.scott_bits(
                                        second,
                                        (left - 1) as nat,
                                        rem2,
                                        op,
                                        bits.push(true),
                                    )
                                } else {
                                    match h3.decode_bool(second, op) {
                                        Err(e) => Err(e),
                                        Ok((h4, Some(false))) => Ok((h4, bits)),
                                        Ok((h4, _)) => h4.scott_bits(
                                            second,
                                            (left - 1) as nat,
                                            rem2,
                                            op,
                                            bits.push(false),
                                        ),
                                    }
                                }
                            },
                        },
                    }
                },
            }
        }
    }

    /// Reads a binary number of at most 64 digits. Without digits it is zero,
    /// if its first part is false.
    #[verifier::opaque]
    pub open spec fn decode_scott_num(self, node: u32, fuel: nat) -> Outcome<Option<u64>> {
        let op = step_fuel(fuel, 200, 10_000);
        match self.scott_bits(node, 64, fuel, op, Seq::empty()) {
            Err(e) => Err(e),
            Ok((h1, bits)) => if bits.len() > 0 {
                Ok((h1, Some(value(bits) as u64)))
            } else {
                match h1.pair_fst(node, op) {
                    Err(e) => Err(e),
                    Ok((h2, (fst, _))) => match h2.decode_bool(fst, op) {
                        Err(e) => Err(e),
                        Ok((h3, b)) => Ok(
                            (
                                h3,
                                if b == Some(false) {
                                    Some(0u64)
                                } else {
                                    None
                                },
                            ),
                        ),
                    },
                }
            },
        }
    }

    /// Takes a list apart.
    #[verifier::opaque]
    pub open spec fn cell(self, cur: u32, fuel: nat) -> Outcome<Option<CellView>> {
        match self.decode_bool(cur, fuel) {
            Err(e) => Err(e),
            Ok((h1, Some(false))) => Ok((h1, None)),
            Ok((h1, _)) => match h1.pair_fst(cur, fuel) {
                Err(e) => Err(e),
                Ok((h2, (head, head_fuel))) => match h2.pair_snd(cur, fuel) {
                    Err(e) => Err(e),
                    Ok((h3, (tail, tail_fuel))) => Ok(
                        (h3, Some(CellView { head, tail, head_fuel, tail_fuel })),
                    ),
                },
            },
        }
    }

    /// Reads at most `left` numbers of a list after those in `items`. Each
    /// takes the fuel that taking its cell apart takes.
    pub open spec fn number_list(
        self,
        cur: u32,
        remaining: nat,
        left: nat,
        items: Seq<u64>,
    ) -> Outcome<Seq<u64>>
        decreases left,
    {
        if left == 0 || remaining == 0 {
            Ok((self, items))
        } else {
            match self.cell(cur, remaining / 20) {
                Err(e) => Err(e),
                Ok((h1, None)) => Ok((h1, items)),
                Ok((h1, Some(cell))) => {
                    let rem1 = cell.left_of(remaining, remaining / 20);
                    match h1.decode_scott_num(cell.head, rem1 / 20) {
                        Err(e) => Err(e),
                        Ok((h2, None)) => Ok((h2, items)),
                        Ok((h2, Some(n))) => h2.number_list(
                            cell.tail,
                            rem1,
                            (left - 1) as nat,
                            items.push(n),
                        ),
                    }
                },
            }
        }
    }

    /// Reads at most `left` booleans of a list after those in `items`. Each
    /// takes the fuel that taking its cell apart takes.
    pub open spec fn bool_list(
        self,
        cur: u32,
        remaining: nat,
        left: nat,
        items: Seq<bool>,
    ) -> Outcome<Seq<bool>>
        decreases left,
    {
        if left == 0 || remaining == 0 {
            Ok((self, items))
        } else {
            match self.cell(cur, remaining / 20) {
                Err(e) => Err(e),
                Ok((h1, None)) => Ok((h1, items)),
                Ok((h1, Some(cell))) => {
                    let rem1 = cell.left_of(remaining, remaining / 20);
                    match h1.decode_bool(cell.head, rem1 / 20) {
                        Err(e) => Err(e),
                        Ok((h2, None)) => Ok((h2, items)),
                        Ok((h2, Some(b))) => h2.bool_list(
                            cell.tail,
                            rem1,
                            (left - 1) as nat,
                            items.push(b),
                        ),
                    }
                },
            }
        }
    }

    /// The function returned `r` and left the arena in the state `h`, as the
    /// outcome `s` says.
    pub open spec fn ran_vec<A>(s: Outcome<Seq<A>>, h: Heap, r: Result<Vec<A>, AllocError>) -> bool {
        match r {
            Ok(v) => s == Ok::<(Heap, Seq<A>), AllocError>((h, v@)),
            Err(e) => s == Err::<(Heap, Seq<A>), AllocError>(e),
        }
    }
}

/// A number of `k` binary digits is below the `k`-th power of two.
pub proof fn lemma_value_bound(bits: Seq<bool>)
    ensures
        value(bits) < pow2(bits.len()),
    decreases bits.len(),
{
    if bits.len() == 0 {
        vstd::arithmetic::power2::lemma2_to64();
    } else {
        lemma_value_bound(bits.skip(1));
        vstd::arithmetic::power2::lemma_pow2_unfold(bits.len());
    }
}

/// At most 64 digits fit into a word.
pub proof fn lemma_value_fits(bits: Seq<bool>)
    requires
        bits.len() <= 64,
    ensures
        value(bits) <= u64::MAX,
{
    lemma_value_bound(bits);
    if bits.len() < 64 {
        vstd::arithmetic::power2::lemma_pow2_strictly_increases(bits.len(), 64);
    }
    vstd::arithmetic::power2::lemma2_to64();
}

/// The number with these binary digits, the lowest first.
pub fn bits_value(bits: &Vec<bool>) -> (n: u64)
    requires
        bits@.len() <= 64,
    ensures
        n == value(bits@),
{
    let mut n: u64 = 0;
    let mut i: usize = bits.len();
    assert(bits@.skip(i as int) =~= Seq::empty());
    while i > 0
        invariant
            i <= bits@.len() <= 64,
            n == value(bits@.skip(i as int)),
        decreases i,
    {
        i -= 1;
        proof {
            let s = bits@.skip(i as int);
            assert(s.skip(1) =~= bits@.skip(i + 1));
            assert(s[0] == bits@[i as int]);
            lemma_value_fits(s);
        }
        n = 2 * n + if bits[i] {
            1
        } else {
            0
        };
    }
    assert(bits@.skip(0) =~= bits@);
    n
}

/// The share of the fuel for one step.
pub(crate) fn share(fuel: u64, parts: u64, least: u64) -> (op: u64)
    requires
        parts > 0,
    ensures
        op == step_fuel(fuel as nat, parts as nat, least as nat),
{
    let part: u64 = fuel / parts;
    if part > least {
        part
    } else {
        least
    }
}

/// Reads the digits of a number.
fn scott_bits(arena: &mut Arena, node: u32, fuel: u64, op: u64) -> (r: Result<
    Vec<bool>,
    AllocError,
>)
    requires
        old(arena)@.wf(),
        old(arena)@.live(node),
        op <= u64::MAX / 4,
    ensures
        Heap::ran_vec(
            old(arena)@.scott_bits(node, 64, fuel as nat, op as nat, Seq::empty()),
            final(arena)@,
            r,
        ),
        old(arena)@.leads_to(final(arena)@),
        r matches Ok(bits) ==> bits@.len() <= 64,
{
    let ghost goal = arena@.scott_bits(node, 64, fuel as nat, op as nat, Seq::empty());
    let mut bits: Vec<bool> = Vec::new();
    let mut current: u32 = node;
    let mut remaining: u64 = fuel;
    let mut k: usize = 0;
    proof {
        crate::heap::lemma_leads_refl(arena@);
        assert(bits@ =~= Seq::empty());
    }
    while k < 64
        invariant_except_break
            k <= 64,
            arena@.wf(),
            arena@.live(current),
            old(arena)@.leads_to(arena@),
            op <= u64::MAX / 4,
            bits@.len() == k,
            goal == old(arena)@.scott_bits(node, 64, fuel as nat, op as nat, Seq::empty()),
            goal == arena@.scott_bits(
                current,
                (64 - k) as nat,
                remaining as nat,
                op as nat,
                bits@,
            ),
        ensures
            bits@.len() <= 64,
            old(arena)@.leads_to(arena@),
            goal == Ok::<(Heap, Seq<bool>), AllocError>((arena@, bits@)),
        decreases 64 - k,
    {
        if remaining < op * 4 {
            break;
        }
        let mut f1: u64 = op;
        let first: u32 = pair_fst(arena, current, &mut f1)?;
        remaining = saturating_minus(remaining, op - f1);
        match decode_bool(arena, first, op)? {
            None => {
                break;
            },
            Some(bit) => {
                let mut f2: u64 = op;
                let second: u32 = pair_snd(arena, current, &mut f2)?;
                remaining = saturating_minus(remaining, op - f2);
                if bit {
                    bits.push(true);
                } else {
                    let nil = decode_bool(arena, second, op)?;
                    if let Some(false) = nil {
                        break;
                    }
                    bits.push(false);
                }
                current = second;
            },
        }
        k += 1;
    }
    Ok(bits)
}

/// Reads a binary number.
pub fn decode_scott_num(arena: &mut Arena, node: u32, fuel: u64) -> (r: Result<
    Option<u64>,
    AllocError,
>)
    requires
        old(arena)@.wf(),
        old(arena)@.live(node),
    ensures
        Heap::ran(old(arena)@.decode_scott_num(node, fuel as nat), final(arena)@, r),
        old(arena)@.leads_to(final(arena)@),
        forall|n: u64| #[trigger]
            Term::number(n as nat).reduces(old(arena)@.term(node)) && (n > 0 ==> fuel
                >= 40_000 + 17 * (crate::encode::bit_length(n as nat) - 1)) && old(arena)@.room()
                >= 98 * (crate::encode::bit_length(n as nat) + 2) ==> r == Ok::<
                Option<u64>,
                AllocError,
            >(Some(n)),
        forall|n: u64, b: nat| #[trigger]
            old(arena)@.term(node).denotes(n as nat, b) && step_fuel(fuel as nat, 200, 10_000) > b
                && (n > 0 ==> fuel >= 4 * step_fuel(fuel as nat, 200, 10_000) + 126 * b) && old(
                arena,
            )@.room() >= (17 + 12 * b) * 66 ==> r == Ok::<Option<u64>, AllocError>(Some(n)),
{
    proof {
        crate::term::lemma_reduces_refl(arena@.term(node));
        assert forall|n: u64, b: nat| #[trigger]
            arena@.term(node).denotes(n as nat, b) && step_fuel(fuel as nat, 200, 10_000) > b && (n
                > 0 ==> fuel >= 4 * step_fuel(fuel as nat, 200, 10_000) + 126 * b) && arena@.room()
                >= (17 + 12 * b) * 66 implies (arena@.decode_scott_num(node, fuel as nat) matches Ok(
            (_, x),
        ) && x == Some(n)) by {
            crate::meaning::lemma_read_number(arena@, node, fuel as nat, arena@.term(node), n, b);
        }
        assert forall|n: u64| #[trigger]
            Term::number(n as nat).reduces(arena@.term(node)) && (n > 0 ==> fuel
                >= 40_000 + 17 * (crate::encode::bit_length(n as nat) - 1)) && arena@.room() >= 98
                * (crate::encode::bit_length(n as nat) + 2) implies (arena@.decode_scott_num(
            node,
            fuel as nat,
        ) matches Ok((_, x)) && x == Some(n)) by {
            crate::laws::lemma_decode_scott_num_law(arena@, node, fuel as nat, n);
        }
        reveal(Heap::decode_scott_num);
    }
    let op: u64 = share(fuel, 200, 10_000);
    let bits = scott_bits(arena, node, fuel, op)?;
    if bits.len() == 0 {
        let mut f: u64 = op;
        let fst: u32 = pair_fst(arena, node, &mut f)?;
        let b = decode_bool(arena, fst, op)?;
        return Ok(
            if let Some(false) = b {
                Some(0)
            } else {
                None
            },
        );
    }
    proof {
        lemma_value_fits(bits@);
    }
    Ok(Some(bits_value(&bits)))
}

/// Takes a list apart; gives nothing at its end.
pub fn list_cell(arena: &mut Arena, cur: u32, fuel: u64) -> (r: Result<Option<Cell>, AllocError>)
    requires
        old(arena)@.wf(),
        old(arena)@.live(cur),
    ensures
        match r {
            Ok(c) => old(arena)@.cell(cur, fuel as nat) == Ok::<
                (Heap, Option<CellView>),
                AllocError,
            >(
                (
                    final(arena)@,
                    match c {
                        Some(cell) => Some(cell@),
                        None => None,
                    },
                ),
            ),
            Err(e) => old(arena)@.cell(cur, fuel as nat) == Err::<
                (Heap, Option<CellView>),
                AllocError,
            >(e),
        },
        old(arena)@.leads_to(final(arena)@),
        r is Ok ==> final(arena)@.room() < old(arena)@.room(),
        r matches Ok(Some(c)) ==> final(arena)@.live(c.head) && final(arena)@.live(c.tail)
            && c.head_fuel <= fuel && c.tail_fuel <= fuel,
{
    proof {
        reveal(Heap::cell);
    }
    let nil = decode_bool(arena, cur, fuel)?;
    if let Some(false) = nil {
        return Ok(None);
    }
    let mut f1: u64 = fuel;
    let head: u32 = pair_fst(arena, cur, &mut f1)?;
    let mut f2: u64 = fuel;
    let tail: u32 = pair_snd(arena, cur, &mut f2)?;
    Ok(Some(Cell { head, tail, head_fuel: f1, tail_fuel: f2 }))
}

/// Reads the numbers of a list, `max_items` at most.
fn read_number_list(arena: &mut Arena, node: u32, fuel: u64, max_items: usize) -> (r: Result<
    Vec<u64>,
    AllocError,
>)
    requires
        old(arena)@.wf(),
        old(arena)@.live(node),
    ensures
        Heap::ran_vec(
            old(arena)@.number_list(node, fuel as nat, max_items as nat, Seq::empty()),
            final(arena)@,
            r,
        ),
        old(arena)@.leads_to(final(arena)@),
{
    let ghost goal = arena@.number_list(node, fuel as nat, max_items as nat, Seq::empty());
    let mut result: Vec<u64> = Vec::new();
    let mut current: u32 = node;
    let mut remaining: u64 = fuel;
    let mut k: usize = 0;
    proof {
        crate::heap::lemma_leads_refl(arena@);
        assert(result@ =~= Seq::empty());
    }
    while k < max_items
        invariant_except_break
            k <= max_items,
            arena@.wf(),
            arena@.live(current),
            old(arena)@.leads_to(arena@),
            goal == old(arena)@.number_list(
                node,
                fuel as nat,
                max_items as nat,
                Seq::empty(),
            ),
            goal == arena@.number_list(
                current,
                remaining as nat,
                (max_items - k) as nat,
                result@,
            ),
        ensures
            old(arena)@.leads_to(arena@),
            goal == Ok::<(Heap, Seq<u64>), AllocError>((arena@, result@)),
        decreases max_items - k,
    {
        if remaining == 0 {
            break;
        }
        let op: u64 = remaining / 20;
        match list_cell(arena, current, op)? {
            None => {
                break;
            },
            Some(cell) => {
                remaining = cell.left_of(remaining, op);
                match decode_scott_num(arena, cell.head, remaining / 20)? {
                    None => {
                        break;
                    },
                    Some(n) => {
                        result.push(n);
                    },
                }
                current = cell.tail;
            },
        }
        k += 1;
    }
    Ok(result)
}

/// Reads the numbers of a list, `max_items` at most.
pub fn decode_number_list(arena: &mut Arena, node: u32, fuel: u64, max_items: usize) -> (r: Result<
    Vec<u64>,
    AllocError,
>)
    requires
        old(arena)@.wf(),
        old(arena)@.live(node),
    ensures
        Heap::ran_vec(
            old(arena)@.number_list(node, fuel as nat, max_items as nat, Seq::empty()),
            final(arena)@,
            r,
        ),
        old(arena)@.leads_to(final(arena)@),
        forall|ns: Seq<u64>, b: nat| #[trigger]
            old(arena)@.term(node).lists(ns, b) && ns.len() <= max_items && fuel
                >= crate::lists::numbers_fuel(ns.len(), b) && old(arena)@.room()
                >= crate::lists::numbers_room(ns.len(), b) ==> (r matches Ok(v) && v@ == ns),
{
    proof {
        let t = arena@.term(node);
        crate::term::lemma_reduces_refl(t);
        assert forall|ns: Seq<u64>, b: nat| #[trigger]
            t.lists(ns, b) && ns.len() <= max_items && fuel >= crate::lists::numbers_fuel(
                ns.len(),
                b,
            ) && arena@.room() >= crate::lists::numbers_room(ns.len(), b) implies (
        arena@.number_list(node, fuel as nat, max_items as nat, Seq::empty()) matches Ok((_, x)) && x
            == ns) by {
            crate::lists::lemma_decode_number_list(
                arena@,
                node,
                fuel as nat,
                max_items as nat,
                t,
                ns,
                b,
            );
        }
    }
    read_number_list(arena, node, fuel, max_items)
}

/// Reads the booleans of a list, `max_items` at most.
fn read_bool_list(arena: &mut Arena, node: u32, fuel: u64, max_items: usize) -> (r: Result<
    Vec<bool>,
    AllocError,
>)
    requires
        old(arena)@.wf(),
        old(arena)@.live(node),
    ensures
        Heap::ran_vec(
            old(arena)@.bool_list(node, fuel as nat, max_items as nat, Seq::empty()),
            final(arena)@,
            r,
        ),
        old(arena)@.leads_to(final(arena)@),
{
    let ghost goal = arena@.bool_list(node, fuel as nat, max_items as nat, Seq::empty());
    let mut result: Vec<bool> = Vec::new();
    let mut current: u32 = node;
    let mut remaining: u64 = fuel;
    let mut k: usize = 0;
    proof {
        crate::heap::lemma_leads_refl(arena@);
        assert(result@ =~= Seq::empty());
    }
    while k < max_items
        invariant_except_break
            k <= max_items,
            arena@.wf(),
            arena@.live(current),
            old(arena)@.leads_to(arena@),
            goal == old(arena)@.bool_list(
                node,
                fuel as nat,
                max_items as nat,
                Seq::empty(),
            ),
            goal == arena@.bool_list(
                current,
                remaining as nat,
                (max_items - k) as nat,
                result@,
            ),
        ensures
            old(arena)@.leads_to(arena@),
            goal == Ok::<(Heap, Seq<bool>), AllocError>((arena@, result@)),
        decreases max_items - k,
    {
        if remaining == 0 {
            break;
        }
        let op: u64 = remaining / 20;
        match list_cell(arena, current, op)? {
            None => {
                break;
            },
            Some(cell) => {
                remaining = cell.left_of(remaining, op);
                match decode_bool(arena, cell.head, remaining / 20)? {
                    None => {
                        break;
                    },
                    Some(b) => {
                        result.push(b);
                    },
                }
                current = cell.tail;
            },
        }
        k += 1;
    }
    Ok(result)
}

/// Reads the booleans of a list, `max_items` at most.
pub fn decode_bool_list(arena: &mut Arena, node: u32, fuel: u64, max_items: usize) -> (r: Result<
    Vec<bool>,
    AllocError,
>)
    requires
        old(arena)@.wf(),
        old(arena)@.live(node),
    ensures
        Heap::ran_vec(
            old(arena)@.bool_list(node, fuel as nat, max_items as nat, Seq::empty()),
            final(arena)@,
            r,
        ),
        old(arena)@.leads_to(final(arena)@),
        forall|bs: Seq<bool>, b: nat| #[trigger]
            old(arena)@.term(node).lists_bools(bs, b) && bs.len() <= max_items && fuel >= 20 * (b
                + 1) + 2 * b * bs.len() && old(arena)@.room() >= crate::lists::bools_room(
                bs.len(),
                b,
            ) ==> (r matches Ok(v) && v@ == bs),
{
    proof {
        let t = arena@.term(node);
        crate::term::lemma_reduces_refl(t);
        assert forall|bs: Seq<bool>, b: nat| #[trigger]
            t.lists_bools(bs, b) && bs.len() <= max_items && fuel >= 20 * (b + 1) + 2 * b
                * bs.len() && arena@.room() >= crate::lists::bools_room(bs.len(), b) implies (
        arena@.bool_list(node, fuel as nat, max_items as nat, Seq::empty()) matches Ok((_, x)) && x
            == bs) by {
            crate::lists::lemma_decode_bool_list(
                arena@,
                node,
                fuel as nat,
                max_items as nat,
                t,
                bs,
                b,
            );
        }
    }
    read_bool_list(arena, node, fuel, max_items)
}

} // verus!
