//! Functions of numbers and their values, and the way along a list.

use vstd::prelude::*;
use crate::arena::Arena;
use crate::decode::decode_scott_num;
use crate::encode::make_scott_num;
use crate::heap::{AllocError, Heap, Outcome};
use crate::node::{APP, K, K1, S2};
use crate::select::{decode_bool, pair1_fst, pair1_snd};
use crate::term::Term;

verus! {

broadcast use crate::heap::group_leads;

/// What a value was read as.
#[derive(Clone, Copy, PartialEq, Eq, Structural, Debug)]
pub enum Value {
    Number(u64),
    Boolean(bool),
    Unknown,
}

impl Heap {
    /// Makes the numbers, one after another, after those in `nodes`.
    pub open spec fn make_numbers(self, args: Seq<u64>, nodes: Seq<u32>) -> Outcome<Seq<u32>>
        decreases args.len(),
    {
        if args.len() == 0 {
            Ok((self, nodes))
        } else {
            match self.make_scott_num(args[0] as nat) {
                Err(e) => Err(e),
                Ok((h, n)) => h.make_numbers(args.skip(1), nodes.push(n)),
            }
        }
    }

    /// Applies a node to others, one after another.
    pub open spec fn apply_all(self, f: u32, args: Seq<u32>) -> Outcome<u32>
        decreases args.len(),
    {
        if args.len() == 0 {
            Ok((self, f))
        } else {
            match self.apply(f, args[0]) {
                Err(e) => Err(e),
                Ok((h, app)) => h.apply_all(app, args.skip(1)),
            }
        }
    }

    /// The value of a function of numbers, and the fuel that is left.
    #[verifier::opaque]
    pub open spec fn call(self, f: u32, args: Seq<u64>, fuel: nat) -> Outcome<(u32, nat)> {
        match self.make_numbers(args, Seq::empty()) {
            Err(e) => Err(e),
            Ok((h1, nodes)) => match h1.apply_all(f, nodes) {
                Err(e) => Err(e),
                Ok((h2, app)) => h2.eval(app, fuel),
            },
        }
    }

    /// The node is `K K`.
    pub open spec fn is_kk(self, i: u32) -> bool {
        let n = self.at(self.follow(i));
        ||| n.tag == K1 && self.tag(self.follow(n.a)) == K
        ||| n.tag == APP && self.tag(self.follow(n.a)) == K && self.tag(self.follow(n.b)) == K
    }

    /// The node within a constant function: `x` for `K x`, and `g` for
    /// `S (K K) g` where those are to be opened too.
    pub open spec fn within_constant(self, i: u32, composed: bool) -> Option<u32> {
        let n = self.at(self.follow(i));
        if n.tag == K1 {
            Some(n.a)
        } else if n.tag == APP && self.tag(self.follow(n.a)) == K {
            Some(n.b)
        } else if composed && n.tag == S2 && self.is_kk(n.a) {
            Some(n.b)
        } else {
            None
        }
    }

    /// Opens at most `rounds` constant functions around a value.
    pub open spec fn unwrap_constants(self, i: u32, composed: bool, rounds: nat) -> (Heap, u32)
        decreases rounds,
    {
        if rounds == 0 {
            (self, i)
        } else {
            match self.within_constant(i, composed) {
                None => (self, i),
                Some(x) => self.chase(x).unwrap_constants(
                    self.follow(x),
                    composed,
                    (rounds - 1) as nat,
                ),
            }
        }
    }

    /// The second component of a value that has one.
    pub open spec fn second_component(self, i: u32) -> Option<u32> {
        let n = self.at(self.follow(i));
        if n.tag == S2 || n.tag == APP {
            Some(self.follow(n.b))
        } else {
            None
        }
    }

    /// Reads a number, or else a boolean.
    pub open spec fn number_or_bool(self, node: u32, num_fuel: nat, bool_fuel: nat) -> Outcome<
        Value,
    > {
        match self.decode_scott_num(node, num_fuel) {
            Err(e) => Err(e),
            Ok((h1, Some(n))) => Ok((h1, Value::Number(n))),
            Ok((h1, None)) => match h1.decode_bool(node, bool_fuel) {
                Err(e) => Err(e),
                Ok((h2, Some(b))) => Ok((h2, Value::Boolean(b))),
                Ok((h2, None)) => Ok((h2, Value::Unknown)),
            },
        }
    }

    /// Reads a boolean, or else a number.
    pub open spec fn bool_or_number(self, node: u32, fuel: nat) -> Outcome<Value> {
        match self.decode_bool(node, fuel) {
            Err(e) => Err(e),
            Ok((h1, Some(b))) => Ok((h1, Value::Boolean(b))),
            Ok((h1, None)) => match h1.decode_scott_num(node, fuel) {
                Err(e) => Err(e),
                Ok((h2, Some(n))) => Ok((h2, Value::Number(n))),
                Ok((h2, None)) => Ok((h2, Value::Unknown)),
            },
        }
    }
}

/// Applies a function to numbers and evaluates.
pub fn call(arena: &mut Arena, f: u32, args: &[u64], fuel: &mut u64) -> (r: Result<u32, AllocError>)
    requires
        old(arena)@.wf(),
        old(arena)@.live(f),
    ensures
        Heap::ran_fuel(
            old(arena)@.call(f, args@, *old(fuel) as nat),
            final(arena)@,
            r,
            *final(fuel),
        ),
        old(arena)@.leads_to(final(arena)@),
        *final(fuel) <= *old(fuel),
        r matches Ok(i) ==> final(arena)@.live(i),
{
    proof {
        reveal(Heap::call);
        crate::heap::lemma_leads_refl(arena@);
        assert(args@.skip(0) =~= args@);
    }
    let ghost h0 = arena@;
    let ghost goal = h0.make_numbers(args@, Seq::empty());
    let mut nodes: Vec<u32> = Vec::new();
    let mut k: usize = 0;
    assert(nodes@ =~= Seq::empty());
    while k < args.len()
        invariant
            k <= args@.len(),
            h0 == old(arena)@,
            h0.leads_to(arena@),
            arena@.wf(),
            arena@.all_live(nodes@),
            *fuel == *old(fuel),
            goal == h0.make_numbers(args@, Seq::empty()),
            goal == arena@.make_numbers(args@.skip(k as int), nodes@),
        decreases args.len() - k,
    {
        let ghost h = arena@;
        let ghost before = nodes@;
        proof {
            reveal(Heap::call);
            assert(args@.skip(k as int).skip(1) =~= args@.skip(k + 1));
        }
        let n: u32 = make_scott_num(arena, args[k])?;
        nodes.push(n);
        proof {
            assert forall|j: int| 0 <= j < nodes@.len() implies arena@.live(
                #[trigger] nodes@[j],
            ) by {
                if j < before.len() {
                    assert(h.live(before[j]));
                }
            }
        }
        k += 1;
    }
    assert(args@.skip(k as int) =~= Seq::empty());
    let app: u32 = apply_all(arena, f, &nodes)?;
    arena.eval(app, fuel)
}

/// Applies a node to others, one after another.
pub fn apply_all(arena: &mut Arena, f: u32, args: &Vec<u32>) -> (r: Result<u32, AllocError>)
    requires
        old(arena)@.wf(),
        old(arena)@.live(f),
        old(arena)@.all_live(args@),
    ensures
        Heap::ran(old(arena)@.apply_all(f, args@), final(arena)@, r),
        old(arena)@.leads_to(final(arena)@),
        r matches Ok(i) ==> final(arena)@.live(i),
{
    let ghost h0 = arena@;
    let mut app: u32 = f;
    let mut k: usize = 0;
    proof {
        crate::heap::lemma_leads_refl(h0);
        assert(args@.skip(0) =~= args@);
    }
    while k < args.len()
        invariant
            k <= args@.len(),
            h0 == old(arena)@,
            h0.leads_to(arena@),
            arena@.wf(),
            arena@.live(app),
            h0.all_live(args@),
            h0.apply_all(f, args@) == arena@.apply_all(app, args@.skip(k as int)),
        decreases args.len() - k,
    {
        proof {
            assert(args@.skip(k as int).skip(1) =~= args@.skip(k + 1));
            assert(h0.live(args@[k as int]));
        }
        app = arena.allocate(APP, app, args[k])?;
        k += 1;
    }
    assert(args@.skip(k as int) =~= Seq::empty());
    Ok(app)
}

/// The node within a constant function, if the node is one.
fn within_constant(arena: &Arena, i: u32, composed: bool) -> (r: Option<u32>)
    requires
        arena@.wf(),
        arena@.live(i),
    ensures
        r == arena@.within_constant(i, composed),
        r matches Some(x) ==> arena@.live(x),
{
    let j: u32 = arena.follow(i);
    let n = arena.node(j);
    assert(arena@.graph.live(j));
    if n.tag == K1 {
        return Some(n.a);
    }
    if n.tag == APP {
        let f: u32 = arena.follow(n.a);
        if arena.node(f).tag == K {
            return Some(n.b);
        }
    }
    if composed && n.tag == S2 {
        let f: u32 = arena.follow(n.a);
        let m = arena.node(f);
        assert(arena@.graph.live(f));
        if m.tag == K1 {
            let x: u32 = arena.follow(m.a);
            if arena.node(x).tag == K {
                return Some(n.b);
            }
        }
        if m.tag == APP {
            let x: u32 = arena.follow(m.a);
            let y: u32 = arena.follow(m.b);
            if arena.node(x).tag == K && arena.node(y).tag == K {
                return Some(n.b);
            }
        }
    }
    None
}

/// Opens the constant functions around a value, ten at most.
pub fn unwrap_constants(arena: &mut Arena, node: u32, composed: bool) -> (val: u32)
    requires
        old(arena)@.wf(),
        old(arena)@.live(node),
    ensures
        (final(arena)@, val) == old(arena)@.unwrap_constants(node, composed, 10),
        old(arena)@.leads_to(final(arena)@),
        final(arena)@.live(val),
{
    let mut val: u32 = node;
    let mut k: usize = 0;
    proof {
        crate::heap::lemma_leads_refl(arena@);
    }
    while k < 10
        invariant_except_break
            k <= 10,
            arena@.wf(),
            arena@.live(val),
            old(arena)@.leads_to(arena@),
            old(arena)@.unwrap_constants(node, composed, 10) == arena@.unwrap_constants(
                val,
                composed,
                (10 - k) as nat,
            ),
        ensures
            arena@.live(val),
            old(arena)@.leads_to(arena@),
            old(arena)@.unwrap_constants(node, composed, 10) == (arena@, val),
        decreases 10 - k,
    {
        match within_constant(arena, val, composed) {
            None => {
                break;
            },
            Some(x) => {
                val = arena.follow_mut(x);
            },
        }
        k += 1;
    }
    val
}

/// The second component of a value that has one: `b` of `S a b`, and of an
/// application to `b`.
pub fn second_component(arena: &Arena, node: u32) -> (r: Option<u32>)
    requires
        arena@.wf(),
        arena@.live(node),
    ensures
        r == arena@.second_component(node),
        r matches Some(x) ==> arena@.live(x),
{
    let i: u32 = arena.follow(node);
    let n = arena.node(i);
    assert(arena@.graph.live(i));
    if n.tag == S2 || n.tag == APP {
        Some(arena.follow(n.b))
    } else {
        None
    }
}

/// Reads a number, or else a boolean.
pub fn number_or_bool(arena: &mut Arena, node: u32, num_fuel: u64, bool_fuel: u64) -> (r: Result<
    Value,
    AllocError,
>)
    requires
        old(arena)@.wf(),
        old(arena)@.live(node),
    ensures
        Heap::ran(
            old(arena)@.number_or_bool(node, num_fuel as nat, bool_fuel as nat),
            final(arena)@,
            r,
        ),
        old(arena)@.leads_to(final(arena)@),
{
    match decode_scott_num(arena, node, num_fuel)? {
        Some(n) => Ok(Value::Number(n)),
        None => match decode_bool(arena, node, bool_fuel)? {
            Some(b) => Ok(Value::Boolean(b)),
            None => Ok(Value::Unknown),
        },
    }
}

/// Reads a boolean, or else a number.
pub fn bool_or_number(arena: &mut Arena, node: u32, fuel: u64) -> (r: Result<Value, AllocError>)
    requires
        old(arena)@.wf(),
        old(arena)@.live(node),
    ensures
        Heap::ran(old(arena)@.bool_or_number(node, fuel as nat), final(arena)@, r),
        old(arena)@.leads_to(final(arena)@),
{
    match decode_bool(arena, node, fuel)? {
        Some(b) => Ok(Value::Boolean(b)),
        None => match decode_scott_num(arena, node, fuel)? {
            Some(n) => Ok(Value::Number(n)),
            None => Ok(Value::Unknown),
        },
    }
}

/// Fuel for reading an item of a list that is walked.
pub const ITEM_FUEL: u64 = 1_000_000;

/// Fuel for reading a part of an item.
pub const PART_FUEL: u64 = 500_000;

/// What comes next in a list of pairs that take one argument.
#[derive(Clone, Copy, PartialEq, Eq, Structural, Debug)]
pub enum WalkItem {
    /// The list ends, with a boolean.
    End(bool),
    /// An item, and the list of those that follow.
    Item { head: u32, tail: u32 },
}

/// What comes next in an item that is itself a list of such pairs.
#[derive(Clone, Copy, PartialEq, Eq, Structural, Debug)]
pub enum PartItem {
    /// The list ends, with a boolean or a number.
    End(Value),
    /// What the first part was read as, and the list of those that follow.
    Part { value: Value, rest: u32 },
}

/// The fuel, or the limit where there is more.
pub open spec fn at_most(fuel: nat, limit: u64) -> nat {
    if fuel < limit {
        fuel
    } else {
        limit as nat
    }
}

impl Heap {
    /// The boolean that a list ends with, if it ends here.
    pub open spec fn list_end(self, node: u32, fuel: nat) -> Outcome<Option<bool>> {
        self.decode_bool(node, at_most(fuel, ITEM_FUEL))
    }

    /// What comes next in a list, and the fuel that is left.
    #[verifier::opaque]
    pub open spec fn walk_next(self, current: u32, fuel: nat) -> Outcome<(WalkItem, nat)> {
        match self.list_end(current, fuel) {
            Err(e) => Err(e),
            Ok((h1, Some(b))) => Ok((h1, (WalkItem::End(b), fuel))),
            Ok((h1, None)) => match h1.pair1_fst(current, fuel) {
                Err(e) => Err(e),
                Ok((h2, (head, f1))) => match h2.pair1_snd(current, f1) {
                    Err(e) => Err(e),
                    Ok((h3, (tail, f2))) => Ok((h3, (WalkItem::Item { head, tail }, f2))),
                },
            },
        }
    }

    /// What the two parts of an item are read as, and the fuel that is left.
    #[verifier::opaque]
    pub open spec fn read_parts(self, item: u32, fuel: nat) -> Outcome<((Value, Value), nat)> {
        match self.pair1_fst(item, fuel) {
            Err(e) => Err(e),
            Ok((h1, (fst, f1))) => match h1.pair1_snd(item, f1) {
                Err(e) => Err(e),
                Ok((h2, (snd, f2))) => match h2.bool_or_number(fst, at_most(f2, PART_FUEL)) {
                    Err(e) => Err(e),
                    Ok((h3, a)) => match h3.bool_or_number(snd, at_most(f2, PART_FUEL)) {
                        Err(e) => Err(e),
                        Ok((h4, b)) => Ok((h4, ((a, b), f2))),
                    },
                },
            },
        }
    }

    /// What comes next in an item that is a list, and the fuel that is left.
    #[verifier::opaque]
    pub open spec fn part_next(self, current: u32, fuel: nat) -> Outcome<(PartItem, nat)> {
        match self.bool_or_number(current, at_most(fuel, PART_FUEL)) {
            Err(e) => Err(e),
            Ok((h1, Value::Unknown)) => match h1.pair1_fst(current, fuel) {
                Err(e) => Err(e),
                Ok((h2, (first, f1))) => match h2.pair1_snd(current, f1) {
                    Err(e) => Err(e),
                    Ok((h3, (rest, f2))) => match h3.bool_or_number(
                        first,
                        at_most(f2, PART_FUEL),
                    ) {
                        Err(e) => Err(e),
                        Ok((h4, value)) => Ok((h4, (PartItem::Part { value, rest }, f2))),
                    },
                },
            },
            Ok((h1, value)) => Ok((h1, (PartItem::End(value), fuel))),
        }
    }
}

fn limited(fuel: u64, limit: u64) -> (r: u64)
    ensures
        r == at_most(fuel as nat, limit),
{
    if fuel < limit {
        fuel
    } else {
        limit
    }
}

/// Whether a list ends here, and with which boolean.
pub fn list_end(arena: &mut Arena, node: u32, fuel: u64) -> (r: Result<Option<bool>, AllocError>)
    requires
        old(arena)@.wf(),
        old(arena)@.live(node),
    ensures
        Heap::ran(old(arena)@.list_end(node, fuel as nat), final(arena)@, r),
        old(arena)@.leads_to(final(arena)@),
{
    decode_bool(arena, node, limited(fuel, ITEM_FUEL))
}

/// What comes next in a list of pairs that take one argument.
pub fn walk_next(arena: &mut Arena, current: u32, fuel: &mut u64) -> (r: Result<
    WalkItem,
    AllocError,
>)
    requires
        old(arena)@.wf(),
        old(arena)@.live(current),
    ensures
        Heap::ran_fuel(
            old(arena)@.walk_next(current, *old(fuel) as nat),
            final(arena)@,
            r,
            *final(fuel),
        ),
        old(arena)@.leads_to(final(arena)@),
        *final(fuel) <= *old(fuel),
        r matches Ok(WalkItem::Item { head, tail }) ==> final(arena)@.live2(head, tail),
{
    proof {
        reveal(Heap::walk_next);
    }
    if let Some(b) = list_end(arena, current, *fuel)? {
        return Ok(WalkItem::End(b));
    }
    let head: u32 = pair1_fst(arena, current, fuel)?;
    let tail: u32 = pair1_snd(arena, current, fuel)?;
    Ok(WalkItem::Item { head, tail })
}

/// Reads the two parts of an item.
pub fn read_parts(arena: &mut Arena, item: u32, fuel: &mut u64) -> (r: Result<
    (Value, Value),
    AllocError,
>)
    requires
        old(arena)@.wf(),
        old(arena)@.live(item),
    ensures
        Heap::ran_fuel(
            old(arena)@.read_parts(item, *old(fuel) as nat),
            final(arena)@,
            r,
            *final(fuel),
        ),
        old(arena)@.leads_to(final(arena)@),
        *final(fuel) <= *old(fuel),
{
    proof {
        reveal(Heap::read_parts);
    }
    let fst: u32 = pair1_fst(arena, item, fuel)?;
    let snd: u32 = pair1_snd(arena, item, fuel)?;
    let a = bool_or_number(arena, fst, limited(*fuel, PART_FUEL))?;
    let b = bool_or_number(arena, snd, limited(*fuel, PART_FUEL))?;
    Ok((a, b))
}

/// What comes next in an item that is itself a list.
pub fn part_next(arena: &mut Arena, current: u32, fuel: &mut u64) -> (r: Result<
    PartItem,
    AllocError,
>)
    requires
        old(arena)@.wf(),
        old(arena)@.live(current),
    ensures
        Heap::ran_fuel(
            old(arena)@.part_next(current, *old(fuel) as nat),
            final(arena)@,
            r,
            *final(fuel),
        ),
        old(arena)@.leads_to(final(arena)@),
        *final(fuel) <= *old(fuel),
        r matches Ok(PartItem::Part { rest, .. }) ==> final(arena)@.live(rest),
{
    proof {
        reveal(Heap::part_next);
    }
    let value = bool_or_number(arena, current, limited(*fuel, PART_FUEL))?;
    match value {
        Value::Unknown => {},
        _ => {
            return Ok(PartItem::End(value));
        },
    }
    let first: u32 = pair1_fst(arena, current, fuel)?;
    let rest: u32 = pair1_snd(arena, current, fuel)?;
    let value = bool_or_number(arena, first, limited(*fuel, PART_FUEL))?;
    Ok(PartItem::Part { value, rest })
}

/// A list ends where it is a boolean, and with that boolean; where it is none, it
/// goes on. More fuel than a million makes no difference.
pub proof fn lemma_list_end(h: Heap, node: u32, fuel: nat, t: Term, v: bool, b: nat)
    requires
        h.wf(),
        h.live(node),
        t.reduces(h.term(node)),
        fuel > b,
        b < 1_000_000,
        h.room() >= 4 + 3 * b,
    ensures
        t.says(v, b) ==> (h.list_end(node, fuel) matches Ok((h1, r)) && r == Some(v) && h.leads_to(
            h1,
        )),
        t.is_no_bool(b) ==> (h.list_end(node, fuel) matches Ok((h1, r)) && r is None && h.leads_to(
            h1,
        )),
        fuel >= 1_000_000 ==> h.list_end(node, fuel) == h.list_end(node, 1_000_000),
{
    if t.says(v, b) {
        crate::meaning::lemma_read_bool(h, node, at_most(fuel, ITEM_FUEL), t, v, b);
    }
    if t.is_no_bool(b) {
        crate::meaning::lemma_read_no_bool(h, node, at_most(fuel, ITEM_FUEL), t, b);
    }
}

/// A list ends where it is a boolean, and with that boolean; where it is none,
/// its first part and the other part come next.
pub proof fn lemma_walk_next(
    h: Heap,
    current: u32,
    fuel: nat,
    t: Term,
    v: bool,
    x: Term,
    y: Term,
    b: nat,
)
    requires
        h.wf(),
        h.live(current),
        t.reduces(h.term(current)),
        fuel > 2 * b,
        b < 1_000_000,
        h.room() >= 10 + 9 * b,
    ensures
        t.says(v, b) ==> (h.walk_next(current, fuel) matches Ok((h1, (r, f))) && h.leads_to(h1)
            && r == WalkItem::End(v) && f == fuel),
        t.is_no_bool(b) && t.has_parts1(x, y, b) ==> (h.walk_next(current, fuel) matches Ok(
            (h1, (WalkItem::Item { head, tail }, f)),
        ) && h.leads_to(h1) && x.reduces(h1.term(head)) && y.reduces(h1.term(tail)) && f + 2 * b
            >= fuel),
{
    reveal(Heap::walk_next);
    if t.says(v, b) {
        crate::meaning::lemma_read_bool(h, current, at_most(fuel, ITEM_FUEL), t, v, b);
    }
    if t.is_no_bool(b) && t.has_parts1(x, y, b) {
        crate::meaning::lemma_read_no_bool(h, current, at_most(fuel, ITEM_FUEL), t, b);
        let (h1, _) = h.list_end(current, fuel)->Ok_0;
        crate::laws::lemma_still(h, h1, current, t);
        crate::meaning::lemma_read_fst1(h1, current, fuel, t, x, y, b);
        let (h2, (head, f1)) = h1.pair1_fst(current, fuel)->Ok_0;
        crate::laws::lemma_still(h1, h2, current, t);
        crate::meaning::lemma_read_snd1(h2, current, f1, t, x, y, b);
        let (h3, (tail, f2)) = h2.pair1_snd(current, f1)->Ok_0;
        crate::laws::lemma_still(h2, h3, head, x);
    }
}

} // verus!
