//! Values as expressions: booleans, pairs, and binary numbers.

use vstd::prelude::*;
use crate::arena::Arena;
use crate::heap::{AllocError, Heap, Outcome};
use crate::node::{APP, I, K, NIL, Node, S};
use crate::term::Term;

verus! {

broadcast use crate::heap::group_leads;

/// How to build an expression: which parts, and in which order.
pub enum Recipe {
    /// A node without children.
    Leaf(u8),
    /// A node that exists.
    Use(u32),
    /// An application, the function first.
    App(Box<Recipe>, Box<Recipe>),
    /// An application, the argument first.
    Arg(Box<Recipe>, Box<Recipe>),
}

impl Recipe {
    pub open spec fn app(f: Recipe, x: Recipe) -> Recipe {
        Recipe::App(Box::new(f), Box::new(x))
    }

    pub open spec fn arg(f: Recipe, x: Recipe) -> Recipe {
        Recipe::Arg(Box::new(f), Box::new(x))
    }

    /// The number of new nodes.
    pub open spec fn size(self) -> nat
        decreases self,
    {
        match self {
            Recipe::Leaf(_) => 1,
            Recipe::Use(_) => 0,
            Recipe::App(f, x) => f.size() + x.size() + 1,
            Recipe::Arg(f, x) => f.size() + x.size() + 1,
        }
    }

    /// The existing nodes are live.
    pub open spec fn live_in(self, h: Heap) -> bool
        decreases self,
    {
        match self {
            Recipe::Leaf(tag) => !Node::leaf(tag).has_a() && !Node::leaf(tag).has_b(),
            Recipe::Use(i) => h.live(i),
            Recipe::App(f, x) => f.live_in(h) && x.live_in(h),
            Recipe::Arg(f, x) => f.live_in(h) && x.live_in(h),
        }
    }

    /// The expression that comes out.
    pub open spec fn term(self, h: Heap) -> Term
        decreases self,
    {
        match self {
            Recipe::Leaf(tag) => Term::Atom(tag),
            Recipe::Use(i) => h.term(i),
            Recipe::App(f, x) => Term::app(f.term(h), x.term(h)),
            Recipe::Arg(f, x) => Term::app(f.term(h), x.term(h)),
        }
    }

    /// `K I`
    pub open spec fn no() -> Recipe {
        Recipe::app(Recipe::Leaf(K), Recipe::Leaf(I))
    }

    /// `S (K K) I`
    pub open spec fn yes() -> Recipe {
        Recipe::app(
            Recipe::arg(Recipe::Leaf(S), Recipe::app(Recipe::Leaf(K), Recipe::Leaf(K))),
            Recipe::Leaf(I),
        )
    }

    /// `K x`
    pub open spec fn constant(x: u32) -> Recipe {
        Recipe::app(Recipe::Leaf(K), Recipe::Use(x))
    }

    /// `S I (K a)`
    pub open spec fn hand(a: u32) -> Recipe {
        Recipe::app(Recipe::app(Recipe::Leaf(S), Recipe::Leaf(I)), Recipe::constant(a))
    }

    /// `S (S I (K a)) (K b)`
    pub open spec fn pair1(a: u32, b: u32) -> Recipe {
        Recipe::app(Recipe::arg(Recipe::Leaf(S), Recipe::hand(a)), Recipe::constant(b))
    }

    /// `S (K K) (S (S I (K a)) (K b))`
    pub open spec fn pair(a: u32, b: u32) -> Recipe {
        Recipe::arg(
            Recipe::app(Recipe::Leaf(S), Recipe::app(Recipe::Leaf(K), Recipe::Leaf(K))),
            Recipe::pair1(a, b),
        )
    }

    /// A boolean.
    pub open spec fn boolean(b: bool) -> Recipe {
        if b {
            Recipe::yes()
        } else {
            Recipe::no()
        }
    }
}

impl Term {
    /// `K I`: false, and the empty list.
    pub open spec fn no() -> Term {
        Term::app(Term::Atom(K), Term::Atom(I))
    }

    /// `S (K K) I`: true.
    pub open spec fn yes() -> Term {
        Term::app2(Term::Atom(S), Term::app(Term::Atom(K), Term::Atom(K)), Term::Atom(I))
    }

    pub open spec fn boolean(b: bool) -> Term {
        if b {
            Term::yes()
        } else {
            Term::no()
        }
    }

    /// A pair that takes one argument and hands it both parts.
    pub open spec fn pair1(a: Term, b: Term) -> Term {
        Term::app2(
            Term::Atom(S),
            Term::app2(Term::Atom(S), Term::Atom(I), Term::app(Term::Atom(K), a)),
            Term::app(Term::Atom(K), b),
        )
    }

    /// A pair that takes two arguments and hands both parts to the first.
    pub open spec fn pair(a: Term, b: Term) -> Term {
        Term::app2(Term::Atom(S), Term::app(Term::Atom(K), Term::Atom(K)), Term::pair1(a, b))
    }

    /// A binary number: a chain of pairs of a bit and the rest, the lowest bit
    /// first, that ends with a pair of false and the empty list.
    pub open spec fn number(n: nat) -> Term
        decreases n,
    {
        if n == 0 {
            Term::pair(Term::no(), Term::no())
        } else {
            Term::pair(Term::boolean(n % 2 == 1), Term::number(n / 2))
        }
    }
}

impl Heap {
    /// Builds an expression.
    pub open spec fn build(self, r: Recipe) -> Outcome<u32>
        decreases r,
    {
        match r {
            Recipe::Leaf(tag) => self.grow(Node::leaf(tag)),
            Recipe::Use(i) => Ok((self, i)),
            Recipe::App(f, x) => match self.build(*f) {
                Err(e) => Err(e),
                Ok((h1, a)) => match h1.build(*x) {
                    Err(e) => Err(e),
                    Ok((h2, b)) => h2.grow(Node { tag: APP, a, b }),
                },
            },
            Recipe::Arg(f, x) => match self.build(*x) {
                Err(e) => Err(e),
                Ok((h1, b)) => match h1.build(*f) {
                    Err(e) => Err(e),
                    Ok((h2, a)) => h2.grow(Node { tag: APP, a, b }),
                },
            },
        }
    }

    /// Builds the pairs of a number in front of its end.
    pub open spec fn digits(self, n: nat, zero: u32) -> Outcome<u32>
        decreases n,
    {
        if n == 0 {
            Ok((self, zero))
        } else {
            match self.digits(n / 2, zero) {
                Err(e) => Err(e),
                Ok((h1, rest)) => match h1.build(Recipe::boolean(n % 2 == 1)) {
                    Err(e) => Err(e),
                    Ok((h2, bit)) => h2.build(Recipe::pair(bit, rest)),
                },
            }
        }
    }

    /// Builds a number.
    pub open spec fn make_scott_num(self, n: nat) -> Outcome<u32> {
        match self.build(Recipe::no()) {
            Err(e) => Err(e),
            Ok((h1, nil)) => match h1.build(Recipe::no()) {
                Err(e) => Err(e),
                Ok((h2, bit)) => match h2.build(Recipe::pair(bit, nil)) {
                    Err(e) => Err(e),
                    Ok((h3, zero)) => h3.digits(n, zero),
                },
            },
        }
    }
}

/// Building an expression gives a node for it, and takes as many nodes as it
/// has new parts.
pub proof fn lemma_build(h: Heap, r: Recipe)
    requires
        h.wf(),
        r.live_in(h),
    ensures
        h.room() >= r.size() <==> h.build(r) is Ok,
        h.build(r) matches Ok((h1, i)) ==> h.builds(h1, r.size()) && h1.live(i) && h1.term(i)
            == r.term(h) && h1.room() + r.size() == h.room(),
    decreases r,
{
    match r {
        Recipe::Leaf(tag) => {
            crate::heap::lemma_alloc(h, Node::leaf(tag));
        },
        Recipe::Use(_) => {
            crate::heap::lemma_builds_refl(h);
        },
        Recipe::App(f, x) => {
            lemma_build(h, *f);
            if let Ok((h1, a)) = h.build(*f) {
                lemma_recipe_frame(h, h1, *x);
                lemma_build(h1, *x);
                if let Ok((h2, b)) = h1.build(*x) {
                    assert(h1.live(a));
                    crate::heap::lemma_alloc(h2, Node { tag: APP, a, b });
                    crate::heap::lemma_builds_trans(h, h1, h2, f.size(), x.size());
                    if let Ok((h3, i)) = h2.grow(Node { tag: APP, a, b }) {
                        crate::heap::lemma_builds_trans(h, h2, h3, f.size() + x.size(), 1);
                    }
                }
            }
        },
        Recipe::Arg(f, x) => {
            lemma_build(h, *x);
            if let Ok((h1, b)) = h.build(*x) {
                lemma_recipe_frame(h, h1, *f);
                lemma_build(h1, *f);
                if let Ok((h2, a)) = h1.build(*f) {
                    assert(h1.live(b));
                    crate::heap::lemma_alloc(h2, Node { tag: APP, a, b });
                    crate::heap::lemma_builds_trans(h, h1, h2, x.size(), f.size());
                    if let Ok((h3, i)) = h2.grow(Node { tag: APP, a, b }) {
                        crate::heap::lemma_builds_trans(h, h2, h3, x.size() + f.size(), 1);
                    }
                }
            }
        },
    }
}

pub proof fn lemma_recipe_frame(h: Heap, h1: Heap, r: Recipe)
    requires
        r.live_in(h),
        forall|j: u32| #[trigger] h.live(j) ==> h1.live(j) && h1.term(j) == h.term(j),
    ensures
        r.live_in(h1),
        r.term(h1) == r.term(h),
    decreases r,
{
    match r {
        Recipe::App(f, x) => {
            lemma_recipe_frame(h, h1, *f);
            lemma_recipe_frame(h, h1, *x);
        },
        Recipe::Arg(f, x) => {
            lemma_recipe_frame(h, h1, *f);
            lemma_recipe_frame(h, h1, *x);
        },
        _ => {},
    }
}

/// The parts of the recipes, and what they make.
proof fn lemma_recipes(h: Heap, a: u32, b: u32)
    requires
        h.live(a),
        h.live(b),
    ensures
        Recipe::no().live_in(h) && Recipe::no().term(h) == Term::no() && Recipe::no().size() == 3,
        Recipe::yes().live_in(h) && Recipe::yes().term(h) == Term::yes() && Recipe::yes().size()
            == 7,
        Recipe::pair(a, b).live_in(h) && Recipe::pair(a, b).term(h) == Term::pair(
            h.term(a),
            h.term(b),
        ) && Recipe::pair(a, b).size() == 17,
{
    reveal_with_fuel(Recipe::live_in, 7);
    reveal_with_fuel(Recipe::term, 7);
    reveal_with_fuel(Recipe::size, 7);
}

/// Making a boolean.
pub proof fn lemma_make_bool(h: Heap, b: bool)
    requires
        h.wf(),
    ensures
        h.room() >= 7 ==> h.build(Recipe::boolean(b)) is Ok,
        h.build(Recipe::boolean(b)) matches Ok((h1, i)) ==> h.builds(h1, 7) && h1.live(i)
            && h1.term(i) == Term::boolean(b),
{
    reveal_with_fuel(Recipe::live_in, 5);
    reveal_with_fuel(Recipe::term, 5);
    reveal_with_fuel(Recipe::size, 5);
    lemma_build(h, Recipe::boolean(b));
}

/// Making a pair.
pub proof fn lemma_make_pair(h: Heap, a: u32, b: u32)
    requires
        h.wf(),
        h.live(a),
        h.live(b),
    ensures
        h.room() >= 17 <==> h.build(Recipe::pair(a, b)) is Ok,
        h.build(Recipe::pair(a, b)) matches Ok((h1, i)) ==> h.builds(h1, 17) && h1.live(i)
            && h1.term(i) == Term::pair(h.term(a), h.term(b)),
{
    lemma_recipes(h, a, b);
    lemma_build(h, Recipe::pair(a, b));
}

/// The number of binary digits.
pub open spec fn bit_length(n: nat) -> nat
    decreases n,
{
    if n == 0 {
        0
    } else {
        1 + bit_length(n / 2)
    }
}

proof fn lemma_digits(h: Heap, n: nat, zero: u32)
    requires
        h.wf(),
        h.live(zero),
        h.term(zero) == Term::number(0),
    ensures
        h.room() >= 24 * bit_length(n) ==> h.digits(n, zero) is Ok,
        h.digits(n, zero) matches Ok((h1, i)) ==> h.builds(h1, 24 * bit_length(n)) && h1.live(i)
            && h1.term(i) == Term::number(n),
    decreases n,
{
    if n == 0 {
        crate::heap::lemma_builds_refl(h);
    } else {
        lemma_digits(h, n / 2, zero);
        if let Ok((h1, rest)) = h.digits(n / 2, zero) {
            let b = n % 2 == 1;
            lemma_make_bool(h1, b);
            if let Ok((h2, bit)) = h1.build(Recipe::boolean(b)) {
                assert(h1.live(rest));
                lemma_make_pair(h2, bit, rest);
                let k = 24 * bit_length(n / 2);
                crate::heap::lemma_builds_trans(h, h1, h2, k, 7);
                if let Ok((h3, i)) = h2.build(Recipe::pair(bit, rest)) {
                    crate::heap::lemma_builds_trans(h, h2, h3, k + 7, 17);
                }
            }
        }
    }
}

/// Making a number gives a node for it.
pub proof fn lemma_make_scott_num(h: Heap, n: nat)
    requires
        h.wf(),
    ensures
        h.room() >= 23 + 24 * bit_length(n) ==> h.make_scott_num(n) is Ok,
        h.make_scott_num(n) matches Ok((h1, i)) ==> h.builds(h1, 23 + 24 * bit_length(n))
            && h1.live(i) && h1.term(i) == Term::number(n),
{
    reveal_with_fuel(Recipe::live_in, 3);
    reveal_with_fuel(Recipe::term, 3);
    reveal_with_fuel(Recipe::size, 3);
    lemma_build(h, Recipe::no());
    if let Ok((h1, nil)) = h.build(Recipe::no()) {
        lemma_build(h1, Recipe::no());
        if let Ok((h2, bit)) = h1.build(Recipe::no()) {
            assert(h1.live(nil));
            lemma_make_pair(h2, bit, nil);
            crate::heap::lemma_builds_trans(h, h1, h2, 3, 3);
            if let Ok((h3, zero)) = h2.build(Recipe::pair(bit, nil)) {
                crate::heap::lemma_builds_trans(h, h2, h3, 6, 17);
                lemma_digits(h3, n, zero);
                if let Ok((h4, i)) = h3.digits(n, zero) {
                    crate::heap::lemma_builds_trans(h, h3, h4, 23, 24 * bit_length(n));
                }
            }
        }
    }
}

/// Makes `K I`, which is false and also the empty list.
pub fn make_false(arena: &mut Arena) -> (r: Result<u32, AllocError>)
    requires
        old(arena)@.wf(),
    ensures
        Heap::ran(old(arena)@.build(Recipe::no()), final(arena)@, r),
        old(arena)@.leads_to(final(arena)@),
        r matches Ok(i) ==> final(arena)@.live(i),
        old(arena)@.room() >= 7 ==> r is Ok,
        r matches Ok(i) ==> old(arena)@.builds(final(arena)@, 7) && final(arena)@.term(i)
            == Term::no(),
{
    proof {
        lemma_make_bool(arena@, false);
        reveal_with_fuel(Heap::build, 3);
    }
    let k: u32 = arena.allocate(K, NIL, NIL)?;
    let i: u32 = arena.allocate(I, NIL, NIL)?;
    arena.allocate(APP, k, i)
}

/// Builds `S (K K) I`.
fn build_true(arena: &mut Arena) -> (r: Result<u32, AllocError>)
    requires
        old(arena)@.wf(),
    ensures
        Heap::ran(old(arena)@.build(Recipe::yes()), final(arena)@, r),
        old(arena)@.leads_to(final(arena)@),
        r matches Ok(i) ==> final(arena)@.live(i),
{
    proof {
        reveal_with_fuel(Heap::build, 5);
    }
    let k1: u32 = arena.allocate(K, NIL, NIL)?;
    let k2: u32 = arena.allocate(K, NIL, NIL)?;
    let kk: u32 = arena.allocate(APP, k1, k2)?;
    let s: u32 = arena.allocate(S, NIL, NIL)?;
    let skk: u32 = arena.allocate(APP, s, kk)?;
    let i: u32 = arena.allocate(I, NIL, NIL)?;
    arena.allocate(APP, skk, i)
}

/// Makes `S (K K) I`, which is true.
pub fn make_true(arena: &mut Arena) -> (r: Result<u32, AllocError>)
    requires
        old(arena)@.wf(),
    ensures
        Heap::ran(old(arena)@.build(Recipe::yes()), final(arena)@, r),
        old(arena)@.leads_to(final(arena)@),
        r matches Ok(i) ==> final(arena)@.live(i),
        old(arena)@.room() >= 7 ==> r is Ok,
        r matches Ok(i) ==> old(arena)@.builds(final(arena)@, 7) && final(arena)@.term(i)
            == Term::yes(),
{
    proof {
        lemma_make_bool(arena@, true);
    }
    build_true(arena)
}

/// Makes `K x`.
fn make_constant(arena: &mut Arena, x: u32) -> (r: Result<u32, AllocError>)
    requires
        old(arena)@.wf(),
        old(arena)@.live(x),
    ensures
        Heap::ran(old(arena)@.build(Recipe::constant(x)), final(arena)@, r),
        old(arena)@.leads_to(final(arena)@),
        r matches Ok(i) ==> final(arena)@.live(i),
{
    proof {
        reveal_with_fuel(Heap::build, 3);
    }
    let k: u32 = arena.allocate(K, NIL, NIL)?;
    arena.allocate(APP, k, x)
}

/// Makes `S I (K a)`, which hands `a` to its argument.
fn make_hand(arena: &mut Arena, a: u32) -> (r: Result<u32, AllocError>)
    requires
        old(arena)@.wf(),
        old(arena)@.live(a),
    ensures
        Heap::ran(old(arena)@.build(Recipe::hand(a)), final(arena)@, r),
        old(arena)@.leads_to(final(arena)@),
        r matches Ok(i) ==> final(arena)@.live(i),
{
    proof {
        reveal_with_fuel(Heap::build, 4);
    }
    let s1: u32 = arena.allocate(S, NIL, NIL)?;
    let i1: u32 = arena.allocate(I, NIL, NIL)?;
    let si: u32 = arena.allocate(APP, s1, i1)?;
    let ka: u32 = make_constant(arena, a)?;
    arena.allocate(APP, si, ka)
}

/// Makes `S (S I (K a)) (K b)`, a pair that takes one argument.
fn make_pair1(arena: &mut Arena, a: u32, b: u32) -> (r: Result<u32, AllocError>)
    requires
        old(arena)@.wf(),
        old(arena)@.live(a),
        old(arena)@.live(b),
    ensures
        Heap::ran(old(arena)@.build(Recipe::pair1(a, b)), final(arena)@, r),
        old(arena)@.leads_to(final(arena)@),
        r matches Ok(i) ==> final(arena)@.live(i),
{
    proof {
        reveal_with_fuel(Heap::build, 3);
    }
    let si_ka: u32 = make_hand(arena, a)?;
    let s2: u32 = arena.allocate(S, NIL, NIL)?;
    let s_si_ka: u32 = arena.allocate(APP, s2, si_ka)?;
    let kb: u32 = make_constant(arena, b)?;
    arena.allocate(APP, s_si_ka, kb)
}

/// Makes a pair that takes two arguments and hands both parts to the first.
pub fn make_pair(arena: &mut Arena, a: u32, b: u32) -> (r: Result<u32, AllocError>)
    requires
        old(arena)@.wf(),
        old(arena)@.live(a),
        old(arena)@.live(b),
    ensures
        Heap::ran(old(arena)@.build(Recipe::pair(a, b)), final(arena)@, r),
        old(arena)@.leads_to(final(arena)@),
        r matches Ok(i) ==> final(arena)@.live(i),
        old(arena)@.room() >= 17 ==> r is Ok,
        r matches Ok(i) ==> old(arena)@.builds(final(arena)@, 17) && final(arena)@.term(i)
            == Term::pair(old(arena)@.term(a), old(arena)@.term(b)),
{
    proof {
        lemma_make_pair(arena@, a, b);
        reveal_with_fuel(Heap::build, 4);
    }
    let inner: u32 = make_pair1(arena, a, b)?;
    let s3: u32 = arena.allocate(S, NIL, NIL)?;
    let k3: u32 = arena.allocate(K, NIL, NIL)?;
    let k4: u32 = arena.allocate(K, NIL, NIL)?;
    let kk: u32 = arena.allocate(APP, k3, k4)?;
    let s_kk: u32 = arena.allocate(APP, s3, kk)?;
    arena.allocate(APP, s_kk, inner)
}

/// Puts the pairs of a number in front of its end.
fn digits(arena: &mut Arena, n: u64, zero: u32) -> (r: Result<u32, AllocError>)
    requires
        old(arena)@.wf(),
        old(arena)@.live(zero),
    ensures
        Heap::ran(old(arena)@.digits(n as nat, zero), final(arena)@, r),
        old(arena)@.leads_to(final(arena)@),
        r matches Ok(i) ==> final(arena)@.live(i),
    decreases n,
{
    proof {
        crate::heap::lemma_leads_refl(arena@);
    }
    if n == 0 {
        return Ok(zero);
    }
    let rest: u32 = digits(arena, n / 2, zero)?;
    let bit: u32 = if n % 2 == 1 {
        make_true(arena)?
    } else {
        make_false(arena)?
    };
    make_pair(arena, bit, rest)
}

/// Makes a binary number.
pub fn make_scott_num(arena: &mut Arena, n: u64) -> (r: Result<u32, AllocError>)
    requires
        old(arena)@.wf(),
    ensures
        Heap::ran(old(arena)@.make_scott_num(n as nat), final(arena)@, r),
        old(arena)@.leads_to(final(arena)@),
        r matches Ok(i) ==> final(arena)@.live(i),
        old(arena)@.room() >= 23 + 24 * bit_length(n as nat) ==> r is Ok,
        r matches Ok(i) ==> old(arena)@.builds(final(arena)@, 23 + 24 * bit_length(n as nat))
            && final(arena)@.term(i) == Term::number(n as nat),
{
    proof {
        lemma_make_scott_num(arena@, n as nat);
    }
    let nil: u32 = make_false(arena)?;
    let ghost h = arena@;
    let false_node: u32 = make_false(arena)?;
    assert(h.graph.live(nil));
    let zero: u32 = make_pair(arena, false_node, nil)?;
    digits(arena, n, zero)
}

} // verus!
