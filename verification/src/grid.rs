//! Images that a program gives as a function of numbers, pixel by pixel.

use vstd::prelude::*;
use crate::arena::Arena;
use crate::heap::{AllocError, Heap, Outcome};
use crate::text::describe;
use crate::value::{call, number_or_bool, unwrap_constants, Value};

verus! {

broadcast use crate::heap::group_leads;

/// What to open around a value before it is read.
#[derive(Clone, Copy, PartialEq, Eq, Structural, Debug)]
pub enum Unwrap {
    /// Nothing.
    Keep,
    /// `K x`.
    Constants,
    /// `K x` and `S (K K) g`.
    Composed,
}

/// The fuel for a call, for reading a number, and for reading a boolean.
#[derive(Clone, Copy, PartialEq, Eq, Structural, Debug)]
pub struct Budget {
    pub call: u64,
    pub number: u64,
    pub boolean: u64,
}

/// The value of a call, and the node that it was read from.
#[derive(Clone, Copy, PartialEq, Eq, Structural, Debug)]
pub struct Sample {
    pub node: u32,
    pub value: Value,
}

impl Heap {
    pub open spec fn unwrap(self, node: u32, unwrap: Unwrap) -> (Heap, u32) {
        match unwrap {
            Unwrap::Keep => (self, node),
            Unwrap::Constants => self.unwrap_constants(node, false, 10),
            Unwrap::Composed => self.unwrap_constants(node, true, 10),
        }
    }

    /// Calls a function of numbers and reads its value.
    #[verifier::opaque]
    pub open spec fn sample(
        self,
        f: u32,
        args: Seq<u64>,
        unwrap: Unwrap,
        budget: Budget,
    ) -> Outcome<Sample> {
        match self.call(f, args, budget.call as nat) {
            Err(e) => Err(e),
            Ok((h1, (r, _))) => {
                let (h2, node) = h1.unwrap(r, unwrap);
                match h2.number_or_bool(node, budget.number as nat, budget.boolean as nat) {
                    Err(e) => Err(e),
                    Ok((h3, value)) => Ok((h3, Sample { node, value })),
                }
            },
        }
    }
}

/// Calls a function of numbers and reads its value.
pub fn sample(arena: &mut Arena, f: u32, args: &[u64], unwrap: Unwrap, budget: Budget) -> (r: Result<
    Sample,
    AllocError,
>)
    requires
        old(arena)@.wf(),
        old(arena)@.live(f),
    ensures
        Heap::ran(old(arena)@.sample(f, args@, unwrap, budget), final(arena)@, r),
        old(arena)@.leads_to(final(arena)@),
        r matches Ok(s) ==> final(arena)@.live(s.node),
{
    proof {
        reveal(Heap::sample);
    }
    let mut fuel: u64 = budget.call;
    let r: u32 = call(arena, f, args, &mut fuel)?;
    let node: u32 = match unwrap {
        Unwrap::Keep => r,
        Unwrap::Constants => unwrap_constants(arena, r, false),
        Unwrap::Composed => unwrap_constants(arena, r, true),
    };
    let value = number_or_bool(arena, node, budget.number, budget.boolean)?;
    Ok(Sample { node, value })
}

/// The pixel of a value; what is neither number nor boolean is gray.
pub open spec fn pixel_of(v: Value) -> u8 {
    match v {
        Value::Number(n) => if n < 255 {
            n as u8
        } else {
            255
        },
        Value::Boolean(true) => 255,
        Value::Boolean(false) => 0,
        Value::Unknown => 128,
    }
}

/// The pixel of a value.
pub fn value_pixel(v: Value) -> (p: u8)
    ensures
        p == pixel_of(v),
{
    match v {
        Value::Number(n) => if n < 255 {
            n as u8
        } else {
            255
        },
        Value::Boolean(true) => 255,
        Value::Boolean(false) => 0,
        Value::Unknown => 128,
    }
}

/// A pixel without a value: its place, and the expression instead.
pub struct Example {
    pub row: u64,
    pub col: u64,
    pub text: String,
}

/// The number of examples that are kept.
pub const MAX_EXAMPLES: usize = 5;

/// An image that is drawn row by row.
pub struct Grid {
    pub size: usize,
    /// The next row.
    pub row: usize,
    pub pixels: Vec<u8>,
    /// How many pixels were numbers, booleans, and neither.
    pub numbers: u64,
    pub booleans: u64,
    pub failures: u64,
    pub examples: Vec<Example>,
}

/// A grid as a mathematical object.
#[verifier::ext_equal]
pub struct GridView {
    pub size: nat,
    pub row: nat,
    pub pixels: Seq<u8>,
    pub numbers: nat,
    pub booleans: nat,
    pub failures: nat,
    pub examples: Seq<(u64, u64, Seq<char>)>,
}

impl View for Grid {
    type V = GridView;

    open spec fn view(&self) -> GridView {
        GridView {
            size: self.size as nat,
            row: self.row as nat,
            pixels: self.pixels@,
            numbers: self.numbers as nat,
            booleans: self.booleans as nat,
            failures: self.failures as nat,
            examples: Seq::new(
                self.examples@.len(),
                |k: int|
                    (self.examples@[k].row, self.examples@[k].col, self.examples@[k].text@),
            ),
        }
    }
}

impl GridView {
    /// There is a pixel for every place, and the pixels of the rows that are
    /// done are counted.
    pub open spec fn wf(self) -> bool {
        &&& self.row <= self.size
        &&& self.pixels.len() == self.size * self.size
        &&& self.pixels.len() <= usize::MAX
        &&& self.numbers + self.booleans + self.failures == self.row * self.size
    }

    /// The grid with one more pixel.
    pub open spec fn put(self, col: nat, v: Value, text: Seq<char>) -> GridView {
        let pixels = self.pixels.update((self.row * self.size + col) as int, pixel_of(v));
        match v {
            Value::Number(_) => GridView { pixels, numbers: self.numbers + 1, ..self },
            Value::Boolean(_) => GridView { pixels, booleans: self.booleans + 1, ..self },
            Value::Unknown => GridView {
                failures: self.failures + 1,
                examples: if self.examples.len() < MAX_EXAMPLES {
                    self.examples.push((self.row as u64, col as u64, text))
                } else {
                    self.examples
                },
                ..self
            },
        }
    }

    /// All pixels are gray, and nothing is counted.
    pub open spec fn blank(size: nat) -> GridView {
        GridView {
            size,
            row: 0,
            pixels: Seq::new(size * size, |i: int| 128u8),
            numbers: 0,
            booleans: 0,
            failures: 0,
            examples: Seq::empty(),
        }
    }
}

impl Heap {
    /// Draws the rest of a row, from the column `col` on: the pixel is the
    /// value of `f` at `n`, the row, and the column.
    pub open spec fn grid_row(
        self,
        f: u32,
        n: u64,
        unwrap: Unwrap,
        budget: Budget,
        g: GridView,
        col: nat,
    ) -> Outcome<GridView>
        decreases g.size - col,
    {
        if col >= g.size {
            Ok((self, GridView { row: g.row + 1, ..g }))
        } else {
            match self.sample(f, seq![n, g.row as u64, col as u64], unwrap, budget) {
                Err(e) => Err(e),
                Ok((h, s)) => h.grid_row(
                    f,
                    n,
                    unwrap,
                    budget,
                    g.put(col, s.value, h.describe(s.node, 0)),
                    col + 1,
                ),
            }
        }
    }
}

/// A gray image.
pub fn blank_grid(size: usize) -> (g: Grid)
    requires
        size * size <= usize::MAX,
    ensures
        g@ == GridView::blank(size as nat),
        g@.wf(),
{
    let area: usize = size * size;
    let mut pixels: Vec<u8> = Vec::with_capacity(area);
    while pixels.len() < area
        invariant
            pixels.len() <= area,
            forall|i: int| 0 <= i < pixels@.len() ==> pixels@[i] == 128,
        decreases area - pixels.len(),
    {
        pixels.push(128);
    }
    let g = Grid {
        size,
        row: 0,
        pixels,
        numbers: 0,
        booleans: 0,
        failures: 0,
        examples: Vec::new(),
    };
    assert(g@ =~= GridView::blank(size as nat));
    g
}

/// Draws the next row of an image.
pub fn render_row(
    arena: &mut Arena,
    f: u32,
    n: u64,
    unwrap: Unwrap,
    budget: Budget,
    g: &mut Grid,
) -> (r: Result<(), AllocError>)
    requires
        old(arena)@.wf(),
        old(arena)@.live(f),
        old(g)@.wf(),
        old(g)@.row < old(g)@.size,
    ensures
        match r {
            Ok(_) => old(arena)@.grid_row(f, n, unwrap, budget, old(g)@, 0) == Ok::<
                (Heap, GridView),
                AllocError,
            >((final(arena)@, final(g)@)),
            Err(e) => old(arena)@.grid_row(f, n, unwrap, budget, old(g)@, 0) == Err::<
                (Heap, GridView),
                AllocError,
            >(e),
        },
        old(arena)@.leads_to(final(arena)@),
        r is Ok ==> final(g)@.wf() && final(g)@.size == old(g)@.size && final(g)@.row == old(g)@.row
            + 1,
{
    let ghost h0 = arena@;
    let ghost g0 = g@;
    let ghost goal = h0.grid_row(f, n, unwrap, budget, g0, 0);
    let size: usize = g.size;
    let row: usize = g.row;
    let mut col: usize = 0;
    proof {
        crate::heap::lemma_leads_refl(h0);
        assert(row * size + size <= size * size) by (nonlinear_arith)
            requires
                row < size,
        ;
        assert(row * size >= 0) by (nonlinear_arith);
    }
    while col < size
        invariant
            col <= size,
            size == g.size,
            row == g.row,
            row < size,
            size == g0.size,
            row == g0.row,
            h0 == old(arena)@,
            g0 == old(g)@,
            arena@.wf(),
            h0.live(f),
            h0.leads_to(arena@),
            g.pixels@.len() == size * size,
            size * size <= usize::MAX,
            row * size + size <= size * size,
            row * size >= 0,
            g.numbers + g.booleans + g.failures == row * size + col,
            goal == h0.grid_row(f, n, unwrap, budget, g0, 0),
            goal == arena@.grid_row(f, n, unwrap, budget, g@, col as nat),
        decreases size - col,
    {
        let ghost before = g@;
        let args: [u64; 3] = [n, row as u64, col as u64];
        assert(args@ =~= seq![n, row as u64, col as u64]);
        let s = sample(arena, f, &args, unwrap, budget)?;
        match s.value {
            Value::Number(_) => {
                g.pixels.set(row * size + col, value_pixel(s.value));
                g.numbers = g.numbers + 1;
            },
            Value::Boolean(_) => {
                g.pixels.set(row * size + col, value_pixel(s.value));
                g.booleans = g.booleans + 1;
            },
            Value::Unknown => {
                g.failures = g.failures + 1;
                if g.examples.len() < MAX_EXAMPLES {
                    let text = describe(arena, s.node, 0);
                    g.examples.push(Example { row: row as u64, col: col as u64, text });
                }
            },
        }
        proof {
            let text = arena@.describe(s.node, 0);
            assert(g@ =~= before.put(col as nat, s.value, text));
        }
        col += 1;
    }
    g.row = row + 1;
    proof {
        assert((row + 1) * size == row * size + size) by (nonlinear_arith);
    }
    Ok(())
}

/// The largest pixel that is not gray, or one.
pub open spec fn max_pixel(pixels: Seq<u8>) -> u8 {
    if exists|i: int| 0 <= i < pixels.len() && pixels[i] != 128 {
        choose|m: u8| #[trigger] is_max_pixel(pixels, m)
    } else {
        1
    }
}

/// `m` is a pixel that is not gray, and no such pixel is larger.
pub open spec fn is_max_pixel(pixels: Seq<u8>, m: u8) -> bool {
    &&& m != 128
    &&& pixels.contains(m)
    &&& forall|i: int| 0 <= i < pixels.len() && #[trigger] pixels[i] != 128 ==> pixels[i] <= m
}

/// The largest pixel that is not gray; one, if all are.
pub fn max_value(pixels: &Vec<u8>) -> (m: u8)
    ensures
        m == max_pixel(pixels@),
        is_max_pixel(pixels@, m) || (m == 1 && forall|i: int|
            0 <= i < pixels@.len() ==> pixels@[i] == 128),
{
    let mut best: Option<u8> = None;
    let mut k: usize = 0;
    while k < pixels.len()
        invariant
            k <= pixels@.len(),
            match best {
                None => forall|i: int| 0 <= i < k ==> pixels@[i] == 128,
                Some(m) => m != 128 && pixels@.contains(m) && forall|i: int|
                    0 <= i < k && #[trigger] pixels@[i] != 128 ==> pixels@[i] <= m,
            },
        decreases pixels.len() - k,
    {
        let p: u8 = pixels[k];
        if p != 128 {
            best = match best {
                None => Some(p),
                Some(m) => if p > m {
                    Some(p)
                } else {
                    Some(m)
                },
            };
        }
        k += 1;
    }
    match best {
        None => 1,
        Some(m) => {
            proof {
                assert(is_max_pixel(pixels@, m));
                let i = choose|i: int| 0 <= i < pixels@.len() && pixels@[i] == m;
                assert(pixels@[i] != 128);
                let m2 = max_pixel(pixels@);
                assert(is_max_pixel(pixels@, m2));
                let j = choose|j: int| 0 <= j < pixels@.len() && pixels@[j] == m2;
                assert(pixels@[j] != 128);
            }
            m
        },
    }
}

/// A pixel on a scale from zero to `max`, on the scale to 255; gray stays.
pub open spec fn scaled(p: u8, max: u8) -> u8 {
    if p == 128 {
        128
    } else if p as int * 255 / max as int > 255 {
        255
    } else {
        (p as int * 255 / max as int) as u8
    }
}

/// Scales the pixels so that `max` becomes 255.
pub fn normalize(pixels: &Vec<u8>, max: u8) -> (r: Vec<u8>)
    requires
        max > 0,
    ensures
        r@ == Seq::new(pixels@.len(), |i: int| scaled(pixels@[i], max)),
{
    let mut r: Vec<u8> = Vec::with_capacity(pixels.len());
    while r.len() < pixels.len()
        invariant
            max > 0,
            r@.len() <= pixels@.len(),
            forall|i: int| 0 <= i < r@.len() ==> r@[i] == scaled(pixels@[i], max),
        decreases pixels.len() - r.len(),
    {
        let p: u8 = pixels[r.len()];
        if p == 128 {
            r.push(128);
        } else {
            let q: u32 = p as u32 * 255 / max as u32;
            r.push(
                if q > 255 {
                    255
                } else {
                    q as u8
                },
            );
        }
    }
    assert(r@ =~= Seq::new(pixels@.len(), |i: int| scaled(pixels@[i], max)));
    r
}

/// How often a color occurs.
pub open spec fn occurrences(pixels: Seq<u8>, color: u8) -> nat
    decreases pixels.len(),
{
    if pixels.len() == 0 {
        0
    } else {
        occurrences(pixels.drop_last(), color) + if pixels.last() == color {
            1nat
        } else {
            0nat
        }
    }
}

/// How often a color occurs.
pub fn count_color(pixels: &Vec<u8>, color: u8) -> (n: usize)
    ensures
        n == occurrences(pixels@, color),
{
    let mut n: usize = 0;
    let mut k: usize = 0;
    assert(pixels@.take(0) =~= Seq::empty());
    while k < pixels.len()
        invariant
            k <= pixels@.len(),
            n <= k,
            n == occurrences(pixels@.take(k as int), color),
        decreases pixels.len() - k,
    {
        assert(pixels@.take(k + 1).drop_last() =~= pixels@.take(k as int));
        if pixels[k] == color {
            n += 1;
        }
        k += 1;
    }
    assert(pixels@.take(k as int) =~= pixels@);
    n
}

/// The number of rows that leaves fill in an image of the given width, if they
/// make an image: a hundred leaves at least, and ten rows.
pub open spec fn rows_of_leaves(n: nat, width: nat) -> Option<nat> {
    if n < 100 || n < width || n / width < 10 {
        None
    } else {
        Some(n / width)
    }
}

/// The number of rows that leaves fill in an image of the given width.
pub fn leaf_rows(n: usize, width: usize) -> (r: Option<usize>)
    requires
        width > 0,
    ensures
        match r {
            Some(h) => rows_of_leaves(n as nat, width as nat) == Some(h as nat),
            None => rows_of_leaves(n as nat, width as nat) is None,
        },
{
    if n < 100 || n < width || n / width < 10 {
        None
    } else {
        Some(n / width)
    }
}

/// The leaves of a tree as the rows of an image of the given width, black for
/// a one; a last row that is not full is left out.
pub fn leaf_pixels(leaves: &Vec<u8>, width: usize) -> (pixels: Vec<u8>)
    requires
        width > 0,
    ensures
        pixels@ == Seq::new(
            (leaves@.len() / width as nat) * width as nat,
            |i: int|
                if leaves@[i] == 1 {
                    0u8
                } else {
                    255u8
                },
        ),
{
    let height: usize = leaves.len() / width;
    proof {
        vstd::arithmetic::div_mod::lemma_fundamental_div_mod(
            leaves@.len() as int,
            width as int,
        );
        vstd::arithmetic::mul::lemma_mul_is_commutative(width as int, height as int);
        assert(height * width <= leaves@.len());
    }
    let area: usize = height * width;
    let mut pixels: Vec<u8> = Vec::with_capacity(area);
    while pixels.len() < area
        invariant
            pixels@.len() <= area <= leaves@.len(),
            forall|i: int|
                0 <= i < pixels@.len() ==> #[trigger] pixels@[i] == if leaves@[i] == 1 {
                    0u8
                } else {
                    255u8
                },
        decreases area - pixels.len(),
    {
        let k: usize = pixels.len();
        pixels.push(
            if leaves[k] == 1 {
                0
            } else {
                255
            },
        );
    }
    assert(pixels@ =~= Seq::new(
        (leaves@.len() / width as nat) * width as nat,
        |i: int|
            if leaves@[i] == 1 {
                0u8
            } else {
                255u8
            },
    ));
    pixels
}

} // verus!
