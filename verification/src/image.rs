//! Images that a program gives as a tree of pairs.

use vstd::prelude::*;
use crate::arena::Arena;
use crate::heap::{AllocError, Heap, Outcome};
use crate::select::{decode_bool, pair_fst, pair_snd};
use crate::term::Term;

verus! {

broadcast use crate::heap::group_leads;

/// How a tree node holds its four quarters.
#[derive(Clone, Copy, PartialEq, Eq, Structural, Debug)]
pub enum Layout {
    /// A pair of a condition and `PAIR(qa, PAIR(qb, PAIR(qc, qd)))`.
    Diamond,
    /// `PAIR(PAIR(nw, ne), PAIR(sw, se))`.
    Nested,
}

/// The four quarters: top left, top right, bottom left, bottom right.
pub struct Quarters {
    pub tl: u32,
    pub tr: u32,
    pub bl: u32,
    pub br: u32,
}

/// What rendering works on: the pixels, the fuel, and the number of pixels
/// that were drawn.
#[verifier::ext_equal]
pub struct Canvas {
    pub pixels: Seq<u8>,
    pub fuel: nat,
    pub count: nat,
}

/// The column and the row of a pixel lie in the square.
pub open spec fn in_square(px: int, py: int, x: int, y: int, size: int) -> bool {
    x <= px < x + size && y <= py < y + size
}

/// The pixels after a square was filled, as far as it lies in an image of
/// `w` columns and rows.
pub open spec fn filled(pixels: Seq<u8>, x: int, y: int, size: int, color: u8, w: int) -> Seq<u8> {
    Seq::new(
        pixels.len(),
        |i: int|
            if i < w * w && in_square(i % w, i / w, x, y, size) {
                color
            } else {
                pixels[i]
            },
    )
}

/// The color of a boolean: black for true, white for false, gray otherwise.
pub open spec fn shade(b: Option<bool>) -> u8 {
    match b {
        Some(true) => 0,
        Some(false) => 255,
        None => 128,
    }
}

/// The pixels after one was set, if it lies in the image.
pub open spec fn dotted(pixels: Seq<u8>, x: int, y: int, color: u8, w: int) -> Seq<u8> {
    if x < w && y < w {
        pixels.update(y * w + x, color)
    } else {
        pixels
    }
}

pub open spec fn at_most(a: nat, b: nat) -> nat {
    if a < b {
        a
    } else {
        b
    }
}

impl Heap {
    /// The quarters of a tree node.
    pub open spec fn quarters(self, layout: Layout, node: u32, fuel: nat) -> Outcome<
        (Quarters, nat),
    > {
        match layout {
            Layout::Diamond => match self.pair_snd(node, fuel) {
                Err(e) => Err(e),
                Ok((h1, (rest, f1))) => match h1.pair_fst(rest, f1) {
                    Err(e) => Err(e),
                    Ok((h2, (tl, f2))) => match h2.pair_snd(rest, f2) {
                        Err(e) => Err(e),
                        Ok((h3, (rest2, f3))) => match h3.pair_fst(rest2, f3) {
                            Err(e) => Err(e),
                            Ok((h4, (tr, f4))) => match h4.pair_snd(rest2, f4) {
                                Err(e) => Err(e),
                                Ok((h5, (rest3, f5))) => match h5.pair_fst(rest3, f5) {
                                    Err(e) => Err(e),
                                    Ok((h6, (bl, f6))) => match h6.pair_snd(rest3, f6) {
                                        Err(e) => Err(e),
                                        Ok((h7, (br, f7))) => Ok(
                                            (h7, (Quarters { tl, tr, bl, br }, f7)),
                                        ),
                                    },
                                },
                            },
                        },
                    },
                },
            },
            Layout::Nested => match self.pair_fst(node, fuel) {
                Err(e) => Err(e),
                Ok((h1, (top, f1))) => match h1.pair_snd(node, f1) {
                    Err(e) => Err(e),
                    Ok((h2, (bottom, f2))) => match h2.pair_fst(top, f2) {
                        Err(e) => Err(e),
                        Ok((h3, (tl, f3))) => match h3.pair_snd(top, f3) {
                            Err(e) => Err(e),
                            Ok((h4, (tr, f4))) => match h4.pair_fst(bottom, f4) {
                                Err(e) => Err(e),
                                Ok((h5, (bl, f5))) => match h5.pair_snd(bottom, f5) {
                                    Err(e) => Err(e),
                                    Ok((h6, (br, f6))) => Ok(
                                        (h6, (Quarters { tl, tr, bl, br }, f6)),
                                    ),
                                },
                            },
                        },
                    },
                },
            },
        }
    }

    /// The color of a tree node that is to be a single pixel.
    pub open spec fn pixel(self, layout: Layout, node: u32, fuel: nat) -> Outcome<(u8, nat)> {
        match layout {
            Layout::Diamond => match self.pair_fst(node, fuel) {
                Err(e) => Err(e),
                Ok((h1, (cond, f1))) => match h1.decode_bool(cond, at_most(f1, 200_000)) {
                    Err(e) => Err(e),
                    Ok((h2, b)) => Ok((h2, (shade(b), f1))),
                },
            },
            Layout::Nested => Ok((self, (128, fuel))),
        }
    }

    /// Draws a tree into the square of `size` columns and rows at `x`, `y` of
    /// an image of `w` columns and rows.
    pub open spec fn render(
        self,
        layout: Layout,
        node: u32,
        c: Canvas,
        x: int,
        y: int,
        size: nat,
        w: int,
    ) -> Outcome<Canvas>
        decreases size,
    {
        if c.fuel == 0 || size == 0 {
            Ok((self, c))
        } else {
            match self.decode_bool(node, at_most(c.fuel, 200_000)) {
                Err(e) => Err(e),
                Ok((h1, Some(b))) => Ok(
                    (
                        h1,
                        Canvas {
                            pixels: filled(c.pixels, x, y, size as int, shade(Some(b)), w),
                            count: c.count + size * size,
                            ..c
                        },
                    ),
                ),
                Ok((h1, None)) => if size == 1 {
                    match h1.pixel(layout, node, c.fuel) {
                        Err(e) => Err(e),
                        Ok((h2, (color, f))) => Ok(
                            (
                                h2,
                                Canvas {
                                    pixels: dotted(c.pixels, x, y, color, w),
                                    fuel: f,
                                    count: c.count + 1,
                                },
                            ),
                        ),
                    }
                } else {
                    match h1.quarters(layout, node, c.fuel) {
                        Err(e) => Err(e),
                        Ok((h2, (q, f))) => {
                            let half = size / 2;
                            let c2 = Canvas { fuel: f, ..c };
                            match h2.render(layout, q.tl, c2, x, y, half, w) {
                                Err(e) => Err(e),
                                Ok((h3, c3)) => match h3.render(
                                    layout,
                                    q.tr,
                                    c3,
                                    x + half,
                                    y,
                                    half,
                                    w,
                                ) {
                                    Err(e) => Err(e),
                                    Ok((h4, c4)) => match h4.render(
                                        layout,
                                        q.bl,
                                        c4,
                                        x,
                                        y + half,
                                        half,
                                        w,
                                    ) {
                                        Err(e) => Err(e),
                                        Ok((h5, c5)) => h5.render(
                                            layout,
                                            q.br,
                                            c5,
                                            x + half,
                                            y + half,
                                            half,
                                            w,
                                        ),
                                    },
                                },
                            }
                        },
                    }
                },
            }
        }
    }

    /// The renderer left the arena in the state `h` and the canvas `c`, as the
    /// outcome `s` says.
    pub open spec fn rendered(
        s: Outcome<Canvas>,
        h: Heap,
        pixels: Seq<u8>,
        fuel: u64,
        count: u64,
        r: Result<(), AllocError>,
    ) -> bool {
        match r {
            Ok(_) => s == Ok::<(Heap, Canvas), AllocError>(
                (h, Canvas { pixels, fuel: fuel as nat, count: count as nat }),
            ),
            Err(e) => s == Err::<(Heap, Canvas), AllocError>(e),
        }
    }
}

/// A pixel in the image has an index, and the index gives its column and row.
proof fn lemma_index(px: int, py: int, w: int)
    requires
        0 <= px < w,
        0 <= py < w,
    ensures
        0 <= py * w + px < w * w,
        (py * w + px) % w == px,
        (py * w + px) / w == py,
{
    assert(py * w + px < w * w) by (nonlinear_arith)
        requires
            0 <= px < w,
            0 <= py < w,
    ;
    assert(0 <= py * w) by (nonlinear_arith)
        requires
            0 <= py,
            0 < w,
    ;
    vstd::arithmetic::div_mod::lemma_fundamental_div_mod_converse(py * w + px, w, py, px);
}

/// Every index below the area is that of its column and row.
proof fn lemma_index_inverse(i: int, w: int)
    requires
        0 <= i < w * w,
        0 < w,
    ensures
        0 <= i % w < w,
        0 <= i / w < w,
        (i / w) * w + i % w == i,
{
    vstd::arithmetic::div_mod::lemma_fundamental_div_mod(i, w);
    vstd::arithmetic::mul::lemma_mul_is_commutative(w, i / w);
    vstd::arithmetic::div_mod::lemma_div_pos_is_pos(i, w);
    vstd::arithmetic::div_mod::lemma_multiply_divide_lt(i, w, w);
}

/// The rows above `rows` are done, and `cols` pixels of the next.
pub open spec fn fill_state(
    old_pixels: Seq<u8>,
    x: int,
    y: int,
    size: int,
    color: u8,
    w: int,
    rows: int,
    cols: int,
) -> Seq<u8> {
    Seq::new(
        old_pixels.len(),
        |i: int|
            if i < w * w && in_square(i % w, i / w, x, y, size) && (i / w < y + rows || (i / w == y
                + rows && i % w < x + cols)) {
                color
            } else {
                old_pixels[i]
            },
    )
}

/// Fills a square, as far as it lies in the image.
pub fn fill_rect(pixels: &mut Vec<u8>, x: usize, y: usize, size: usize, color: u8, img_width: usize)
    requires
        img_width * img_width <= old(pixels)@.len(),
        x + size <= usize::MAX,
        y + size <= usize::MAX,
    ensures
        final(pixels)@ == filled(
            old(pixels)@,
            x as int,
            y as int,
            size as int,
            color,
            img_width as int,
        ),
{
    let ghost p0 = pixels@;
    let ghost w = img_width as int;
    let mut dy: usize = 0;
    assert(pixels@ =~= fill_state(p0, x as int, y as int, size as int, color, w, 0, 0));
    while dy < size
        invariant
            dy <= size,
            w == img_width,
            w * w <= p0.len(),
            x + size <= usize::MAX,
            y + size <= usize::MAX,
            pixels@ == fill_state(
                p0,
                x as int,
                y as int,
                size as int,
                color,
                w,
                dy as int,
                0,
            ),
        decreases size - dy,
    {
        let mut dx: usize = 0;
        while dx < size
            invariant
                dx <= size,
                dy < size,
                w == img_width,
                w * w <= p0.len(),
                x + size <= usize::MAX,
                y + size <= usize::MAX,
                pixels@ == fill_state(
                    p0,
                    x as int,
                    y as int,
                    size as int,
                    color,
                    w,
                    dy as int,
                    dx as int,
                ),
            decreases size - dx,
        {
            let px: usize = x + dx;
            let py: usize = y + dy;
            if px < img_width && py < img_width {
                proof {
                    lemma_index(px as int, py as int, w);
                    assert(py * img_width <= w * w) by (nonlinear_arith)
                        requires
                            py < img_width,
                            w == img_width,
                    ;
                    assert(pixels.len() == p0.len());
                }
                pixels.set(py * img_width + px, color);
            }
            proof {
                let after = fill_state(
                    p0,
                    x as int,
                    y as int,
                    size as int,
                    color,
                    w,
                    dy as int,
                    dx + 1,
                );
                assert forall|i: int| 0 <= i < p0.len() implies pixels@[i] == after[i] by {
                    if i < w * w {
                        assert(w > 0) by (nonlinear_arith)
                            requires
                                0 <= i < w * w,
                                w >= 0,
                        ;
                        lemma_index_inverse(i, w);
                        if i % w == px && i / w == py {
                            assert(i == py * w + px);
                        }
                    }
                }
                assert(pixels@ =~= after);
            }
            dx += 1;
        }
        proof {
            assert(pixels@ =~= fill_state(
                p0,
                x as int,
                y as int,
                size as int,
                color,
                w,
                dy + 1,
                0,
            ));
        }
        dy += 1;
    }
    assert(pixels@ =~= filled(p0, x as int, y as int, size as int, color, w));
}

/// The quarters of a tree node.
fn quarters(arena: &mut Arena, layout: Layout, node: u32, fuel: &mut u64) -> (r: Result<
    Quarters,
    AllocError,
>)
    requires
        old(arena)@.wf(),
        old(arena)@.live(node),
    ensures
        match r {
            Ok(q) => old(arena)@.quarters(layout, node, *old(fuel) as nat) == Ok::<
                (Heap, (Quarters, nat)),
                AllocError,
            >((final(arena)@, (q, *final(fuel) as nat))),
            Err(e) => old(arena)@.quarters(layout, node, *old(fuel) as nat) == Err::<
                (Heap, (Quarters, nat)),
                AllocError,
            >(e),
        },
        old(arena)@.leads_to(final(arena)@),
        *final(fuel) <= *old(fuel),
        r matches Ok(q) ==> final(arena)@.live2(q.tl, q.tr) && final(arena)@.live2(q.bl, q.br),
{
    match layout {
        Layout::Diamond => {
            let rest: u32 = pair_snd(arena, node, fuel)?;
            let tl: u32 = pair_fst(arena, rest, fuel)?;
            let rest2: u32 = pair_snd(arena, rest, fuel)?;
            let tr: u32 = pair_fst(arena, rest2, fuel)?;
            let rest3: u32 = pair_snd(arena, rest2, fuel)?;
            let bl: u32 = pair_fst(arena, rest3, fuel)?;
            let br: u32 = pair_snd(arena, rest3, fuel)?;
            Ok(Quarters { tl, tr, bl, br })
        },
        Layout::Nested => {
            let top: u32 = pair_fst(arena, node, fuel)?;
            let bottom: u32 = pair_snd(arena, node, fuel)?;
            let tl: u32 = pair_fst(arena, top, fuel)?;
            let tr: u32 = pair_snd(arena, top, fuel)?;
            let bl: u32 = pair_fst(arena, bottom, fuel)?;
            let br: u32 = pair_snd(arena, bottom, fuel)?;
            Ok(Quarters { tl, tr, bl, br })
        },
    }
}

/// The color of a boolean: black for true, white for false, gray otherwise.
pub fn color_of(b: Option<bool>) -> (c: u8)
    ensures
        c == shade(b),
{
    match b {
        Some(true) => 0,
        Some(false) => 255,
        None => 128,
    }
}

fn lesser(a: u64, b: u64) -> (m: u64)
    ensures
        m == at_most(a as nat, b as nat),
{
    if a < b {
        a
    } else {
        b
    }
}

/// The color of a tree node that is to be a single pixel.
fn pixel(arena: &mut Arena, layout: Layout, node: u32, fuel: &mut u64) -> (r: Result<
    u8,
    AllocError,
>)
    requires
        old(arena)@.wf(),
        old(arena)@.live(node),
    ensures
        match r {
            Ok(c) => old(arena)@.pixel(layout, node, *old(fuel) as nat) == Ok::<
                (Heap, (u8, nat)),
                AllocError,
            >((final(arena)@, (c, *final(fuel) as nat))),
            Err(e) => old(arena)@.pixel(layout, node, *old(fuel) as nat) == Err::<
                (Heap, (u8, nat)),
                AllocError,
            >(e),
        },
        old(arena)@.leads_to(final(arena)@),
        *final(fuel) <= *old(fuel),
{
    proof {
        crate::heap::lemma_leads_refl(arena@);
    }
    match layout {
        Layout::Diamond => {
            let cond: u32 = pair_fst(arena, node, fuel)?;
            let b = decode_bool(arena, cond, lesser(*fuel, 200_000))?;
            Ok(color_of(b))
        },
        Layout::Nested => Ok(128),
    }
}

/// The quarters of a square are not larger than the square.
proof fn lemma_area(size: nat, count: nat)
    requires
        size >= 2,
    ensures
        4 * ((size / 2) * (size / 2)) <= size * size,
        (size / 2) * (size / 2) <= size * size,
{
    let h = size / 2;
    assert(4 * (h * h) <= size * size) by (nonlinear_arith)
        requires
            2 * h <= size,
            h >= 0,
    ;
    assert(h * h >= 0) by (nonlinear_arith);
}

/// Draws a tree.
fn render(
    arena: &mut Arena,
    layout: Layout,
    node: u32,
    pixels: &mut Vec<u8>,
    x: usize,
    y: usize,
    size: usize,
    img_width: usize,
    fuel: &mut u64,
    count: &mut u64,
) -> (r: Result<(), AllocError>)
    requires
        old(arena)@.wf(),
        old(arena)@.live(node),
        img_width * img_width <= old(pixels)@.len(),
        x + size <= usize::MAX,
        y + size <= usize::MAX,
        size * size <= usize::MAX,
        *old(count) + size * size <= u64::MAX,
    ensures
        Heap::rendered(
            old(arena)@.render(
                layout,
                node,
                Canvas {
                    pixels: old(pixels)@,
                    fuel: *old(fuel) as nat,
                    count: *old(count) as nat,
                },
                x as int,
                y as int,
                size as nat,
                img_width as int,
            ),
            final(arena)@,
            final(pixels)@,
            *final(fuel),
            *final(count),
            r,
        ),
        old(arena)@.leads_to(final(arena)@),
        final(pixels)@.len() == old(pixels)@.len(),
        *final(fuel) <= *old(fuel),
        *final(count) <= *old(count) + size * size,
    decreases size,
{
    proof {
        crate::heap::lemma_leads_refl(arena@);
        assert(size * size >= 0) by (nonlinear_arith);
    }
    if *fuel == 0 || size == 0 {
        return Ok(());
    }
    proof {
        assert(size * size >= 1) by (nonlinear_arith)
            requires
                size >= 1,
        ;
    }
    let leaf = decode_bool(arena, node, lesser(*fuel, 200_000))?;
    if leaf.is_some() {
        fill_rect(pixels, x, y, size, color_of(leaf), img_width);
        *count = *count + (size * size) as u64;
        return Ok(());
    }
    if size <= 1 {
        let color: u8 = pixel(arena, layout, node, fuel)?;
        if x < img_width && y < img_width {
            proof {
                lemma_index(x as int, y as int, img_width as int);
                assert(y * img_width <= img_width * img_width) by (nonlinear_arith)
                    requires
                        y < img_width,
                ;
                assert(pixels.len() == pixels@.len());
            }
            pixels.set(y * img_width + x, color);
        }
        *count = *count + 1;
        return Ok(());
    }
    let half: usize = size / 2;
    proof {
        lemma_area(size as nat, 0);
        assert((size / 2) * (size / 2) == half * half);
    }
    let q = quarters(arena, layout, node, fuel)?;
    render(arena, layout, q.tl, pixels, x, y, half, img_width, fuel, count)?;
    render(arena, layout, q.tr, pixels, x + half, y, half, img_width, fuel, count)?;
    render(arena, layout, q.bl, pixels, x, y + half, half, img_width, fuel, count)?;
    render(arena, layout, q.br, pixels, x + half, y + half, half, img_width, fuel, count)
}

/// Draws a tree of the form `PAIR(cond, PAIR(qa, PAIR(qb, PAIR(qc, qd))))`
/// with boolean leaves; true is black.
pub fn render_diamond(
    arena: &mut Arena,
    node: u32,
    pixels: &mut Vec<u8>,
    x: usize,
    y: usize,
    size: usize,
    img_width: usize,
    fuel: &mut u64,
    count: &mut u64,
) -> (r: Result<(), AllocError>)
    requires
        old(arena)@.wf(),
        old(arena)@.live(node),
        img_width * img_width <= old(pixels)@.len(),
        x + size <= usize::MAX,
        y + size <= usize::MAX,
        size * size <= usize::MAX,
        *old(count) + size * size <= u64::MAX,
    ensures
        Heap::rendered(
            old(arena)@.render(
                Layout::Diamond,
                node,
                Canvas {
                    pixels: old(pixels)@,
                    fuel: *old(fuel) as nat,
                    count: *old(count) as nat,
                },
                x as int,
                y as int,
                size as nat,
                img_width as int,
            ),
            final(arena)@,
            final(pixels)@,
            *final(fuel),
            *final(count),
            r,
        ),
        old(arena)@.leads_to(final(arena)@),
        final(pixels)@.len() == old(pixels)@.len(),
        *final(fuel) <= *old(fuel),
        *final(count) <= *old(count) + size * size,
{
    render(arena, Layout::Diamond, node, pixels, x, y, size, img_width, fuel, count)
}

/// Draws a tree of the form `PAIR(PAIR(nw, ne), PAIR(sw, se))` with boolean
/// leaves; true is black.
pub fn render_quadtree_v2(
    arena: &mut Arena,
    node: u32,
    pixels: &mut Vec<u8>,
    x: usize,
    y: usize,
    size: usize,
    img_width: usize,
    fuel: &mut u64,
    count: &mut u64,
) -> (r: Result<(), AllocError>)
    requires
        old(arena)@.wf(),
        old(arena)@.live(node),
        img_width * img_width <= old(pixels)@.len(),
        x + size <= usize::MAX,
        y + size <= usize::MAX,
        size * size <= usize::MAX,
        *old(count) + size * size <= u64::MAX,
    ensures
        Heap::rendered(
            old(arena)@.render(
                Layout::Nested,
                node,
                Canvas {
                    pixels: old(pixels)@,
                    fuel: *old(fuel) as nat,
                    count: *old(count) as nat,
                },
                x as int,
                y as int,
                size as nat,
                img_width as int,
            ),
            final(arena)@,
            final(pixels)@,
            *final(fuel),
            *final(count),
            r,
        ),
        old(arena)@.leads_to(final(arena)@),
        final(pixels)@.len() == old(pixels)@.len(),
        *final(fuel) <= *old(fuel),
        *final(count) <= *old(count) + size * size,
{
    render(arena, Layout::Nested, node, pixels, x, y, size, img_width, fuel, count)
}

/// Drawing leaves the pixels outside its square alone, and counts no more
/// than the square has.
pub proof fn lemma_render_outside(
    h: Heap,
    layout: Layout,
    node: u32,
    c: Canvas,
    x: int,
    y: int,
    size: nat,
    w: int,
)
    requires
        0 <= x,
        0 <= y,
        w * w <= c.pixels.len(),
    ensures
        h.render(layout, node, c, x, y, size, w) matches Ok((h1, c1)) ==> {
            &&& c1.pixels.len() == c.pixels.len()
            &&& c.count <= c1.count <= c.count + size * size
            &&& forall|i: int|
                0 <= i < c.pixels.len() && !(i < w * w && in_square(i % w, i / w, x, y, size as int))
                    ==> #[trigger] c1.pixels[i] == c.pixels[i]
        },
    decreases size,
{
    assert(size * size >= 0) by (nonlinear_arith);
    if c.fuel > 0 && size > 0 {
        assert(size * size >= 1) by (nonlinear_arith)
            requires
                size >= 1,
        ;
        if let Ok((h1, None)) = h.decode_bool(node, at_most(c.fuel, 200_000)) {
            if size == 1 {
                if x < w && y < w {
                    lemma_index(x, y, w);
                }
            } else if let Ok((h2, (q, f))) = h1.quarters(layout, node, c.fuel) {
                let half = size / 2;
                let c2 = Canvas { fuel: f, ..c };
                lemma_area(size, 0);
                lemma_render_outside(h2, layout, q.tl, c2, x, y, half, w);
                if let Ok((h3, c3)) = h2.render(layout, q.tl, c2, x, y, half, w) {
                    lemma_render_outside(h3, layout, q.tr, c3, x + half, y, half, w);
                    if let Ok((h4, c4)) = h3.render(layout, q.tr, c3, x + half, y, half, w) {
                        lemma_render_outside(h4, layout, q.bl, c4, x, y + half, half, w);
                        if let Ok((h5, c5)) = h4.render(layout, q.bl, c4, x, y + half, half, w) {
                            lemma_render_outside(
                                h5,
                                layout,
                                q.br,
                                c5,
                                x + half,
                                y + half,
                                half,
                                w,
                            );
                        }
                    }
                }
            }
        }
    }
}

/// A picture: one color, or a color for the picture as a whole and four
/// quarters.
pub enum Picture {
    Plain(bool),
    Quad(bool, Box<Picture>, Box<Picture>, Box<Picture>, Box<Picture>),
}

impl Picture {
    /// The tree of a picture.
    pub open spec fn term(self, layout: Layout) -> Term
        decreases self,
    {
        match self {
            Picture::Plain(b) => Term::boolean(b),
            Picture::Quad(b, tl, tr, bl, br) => match layout {
                Layout::Diamond => Term::pair(
                    Term::boolean(b),
                    Term::pair(
                        tl.term(layout),
                        Term::pair(tr.term(layout), Term::pair(bl.term(layout), br.term(layout))),
                    ),
                ),
                Layout::Nested => Term::pair(
                    Term::pair(tl.term(layout), tr.term(layout)),
                    Term::pair(bl.term(layout), br.term(layout)),
                ),
            },
        }
    }

    /// The number of parts.
    pub open spec fn parts(self) -> nat
        decreases self,
    {
        match self {
            Picture::Plain(_) => 1,
            Picture::Quad(_, tl, tr, bl, br) => 1 + tl.parts() + tr.parts() + bl.parts()
                + br.parts(),
        }
    }

    /// The pixels with the picture in the square.
    pub open spec fn paint(
        self,
        layout: Layout,
        pixels: Seq<u8>,
        x: int,
        y: int,
        size: nat,
        w: int,
    ) -> Seq<u8>
        decreases self,
    {
        if size == 0 {
            pixels
        } else {
            match self {
                Picture::Plain(b) => filled(pixels, x, y, size as int, shade(Some(b)), w),
                Picture::Quad(b, tl, tr, bl, br) => if size == 1 {
                    let color = if layout is Diamond {
                        shade(Some(b))
                    } else {
                        128
                    };
                    dotted(pixels, x, y, color, w)
                } else {
                    let half = size / 2;
                    let p1 = tl.paint(layout, pixels, x, y, half, w);
                    let p2 = tr.paint(layout, p1, x + half, y, half, w);
                    let p3 = bl.paint(layout, p2, x, y + half, half, w);
                    br.paint(layout, p3, x + half, y + half, half, w)
                },
            }
        }
    }
}

impl Term {
    /// The expression is a picture: a boolean for a plain one, and no boolean
    /// for one with quarters, which are its parts as the layout says. Each
    /// takes `b` reductions at most.
    pub open spec fn is_picture(self, p: Picture, layout: Layout, b: nat) -> bool
        decreases p,
    {
        match p {
            Picture::Plain(v) => self.says(v, b),
            Picture::Quad(v, tl, tr, bl, br) => self.is_no_bool(b) && exists|q: Parts| #[trigger]
                self.has_quarters(q, layout, v, b) && q.tl.is_picture(*tl, layout, b)
                    && q.tr.is_picture(*tr, layout, b) && q.bl.is_picture(*bl, layout, b)
                    && q.br.is_picture(*br, layout, b),
        }
    }

    /// The quarters are the parts of the expression, as the layout says.
    pub open spec fn has_quarters(self, q: Parts, layout: Layout, v: bool, b: nat) -> bool {
        match layout {
            Layout::Diamond => {
                &&& self.has_parts(q.r0, q.r1, b) && q.r0.says(v, b)
                &&& q.r1.has_parts(q.tl, q.r2, b)
                &&& q.r2.has_parts(q.tr, q.r3, b)
                &&& q.r3.has_parts(q.bl, q.br, b)
            },
            Layout::Nested => {
                &&& self.has_parts(q.r0, q.r1, b)
                &&& q.r0.has_parts(q.tl, q.tr, b)
                &&& q.r1.has_parts(q.bl, q.br, b)
            },
        }
    }
}

/// The quarters of an expression, and what they are parts of.
pub struct Parts {
    pub tl: Term,
    pub tr: Term,
    pub bl: Term,
    pub br: Term,
    pub r0: Term,
    pub r1: Term,
    pub r2: Term,
    pub r3: Term,
}

/// The first part of an expression, within `b` units of fuel.
proof fn lemma_fst(h: Heap, node: u32, fuel: nat, t: Term, x: Term, y: Term, b: nat)
    requires
        h.wf(),
        h.live(node),
        t.reduces(h.term(node)),
        t.has_parts(x, y, b),
        fuel > b,
        h.room() >= 5 + 3 * b,
    ensures
        h.pair_fst(node, fuel) matches Ok((h1, (r, f))) && h.leads_to(h1) && h1.live(r) && fuel - b
            <= f <= fuel && h1.room() + 5 + 3 * b >= h.room() && x.reduces(h1.term(r)),
{
    crate::meaning::lemma_read_fst(h, node, fuel, t, x, y, b);
    crate::select::lemma_pair_fst(h, node, fuel);
}

/// The second part of an expression, within `b` units of fuel.
proof fn lemma_snd(h: Heap, node: u32, fuel: nat, t: Term, x: Term, y: Term, b: nat)
    requires
        h.wf(),
        h.live(node),
        t.reduces(h.term(node)),
        t.has_parts(x, y, b),
        fuel > b,
        h.room() >= 5 + 3 * b,
    ensures
        h.pair_snd(node, fuel) matches Ok((h1, (r, f))) && h.leads_to(h1) && h1.live(r) && fuel - b
            <= f <= fuel && h1.room() + 5 + 3 * b >= h.room() && y.reduces(h1.term(r)),
{
    crate::meaning::lemma_read_snd(h, node, fuel, t, x, y, b);
    crate::select::lemma_pair_snd(h, node, fuel);
}

/// The tree of a picture that was made is the picture.
pub proof fn lemma_picture_means(p: Picture, layout: Layout)
    ensures
        p.term(layout).is_picture(p, layout, 9),
        p.term(layout).step() is None,
    decreases p,
{
    let t = p.term(layout);
    match p {
        Picture::Plain(v) => crate::meaning::lemma_boolean_says(v),
        Picture::Quad(v, tl, tr, bl, br) => {
            lemma_picture_means(*tl, layout);
            lemma_picture_means(*tr, layout);
            lemma_picture_means(*bl, layout);
            lemma_picture_means(*br, layout);
            let (a0, a1, a2, a3) = (
                tl.term(layout),
                tr.term(layout),
                bl.term(layout),
                br.term(layout),
            );
            crate::meaning::lemma_boolean_says(v);
            let q = match layout {
                Layout::Diamond => Parts {
                    tl: a0,
                    tr: a1,
                    bl: a2,
                    br: a3,
                    r0: Term::boolean(v),
                    r1: Term::pair(a0, Term::pair(a1, Term::pair(a2, a3))),
                    r2: Term::pair(a1, Term::pair(a2, a3)),
                    r3: Term::pair(a2, a3),
                },
                Layout::Nested => Parts {
                    tl: a0,
                    tr: a1,
                    bl: a2,
                    br: a3,
                    r0: Term::pair(a0, a1),
                    r1: Term::pair(a2, a3),
                    r2: a0,
                    r3: a0,
                },
            };
            crate::laws::lemma_values_normal(v, a2, a3);
            crate::laws::lemma_values_normal(v, a0, a1);
            crate::laws::lemma_values_normal(v, a1, q.r3);
            crate::laws::lemma_values_normal(v, a0, q.r2);
            crate::laws::lemma_values_normal(v, q.r0, q.r1);
            crate::meaning::lemma_pair_means(a2, a3);
            crate::meaning::lemma_pair_means(a0, a1);
            crate::meaning::lemma_pair_means(a1, q.r3);
            crate::meaning::lemma_pair_means(a0, q.r2);
            crate::meaning::lemma_pair_means(q.r0, q.r1);
            assert(t == Term::pair(q.r0, q.r1));
            assert(t.has_quarters(q, layout, v, 9));
        },
    }
}

/// Taking the quarters of an expression gives them.
proof fn lemma_quarters(
    h: Heap,
    layout: Layout,
    node: u32,
    fuel: nat,
    t: Term,
    q: Parts,
    v: bool,
    b: nat,
)
    requires
        h.wf(),
        h.live(node),
        t.reduces(h.term(node)),
        t.has_quarters(q, layout, v, b),
        fuel > 7 * b,
        h.room() >= 7 * (5 + 3 * b),
    ensures
        h.quarters(layout, node, fuel) matches Ok((h1, (n, f))) && {
            &&& h.leads_to(h1)
            &&& fuel - 7 * b <= f <= fuel
            &&& h1.room() + 7 * (5 + 3 * b) >= h.room()
            &&& h1.live2(n.tl, n.tr) && h1.live2(n.bl, n.br)
            &&& q.tl.reduces(h1.term(n.tl))
            &&& q.tr.reduces(h1.term(n.tr))
            &&& q.bl.reduces(h1.term(n.bl))
            &&& q.br.reduces(h1.term(n.br))
        },
{
    match layout {
        Layout::Diamond => {
            lemma_snd(h, node, fuel, t, q.r0, q.r1, b);
            let (h1, (rest, f1)) = h.pair_snd(node, fuel)->Ok_0;
            lemma_fst(h1, rest, f1, q.r1, q.tl, q.r2, b);
            let (h2, (n0, f2)) = h1.pair_fst(rest, f1)->Ok_0;
            crate::laws::lemma_still(h1, h2, rest, q.r1);
            lemma_snd(h2, rest, f2, q.r1, q.tl, q.r2, b);
            let (h3, (rest2, f3)) = h2.pair_snd(rest, f2)->Ok_0;
            lemma_fst(h3, rest2, f3, q.r2, q.tr, q.r3, b);
            let (h4, (n1, f4)) = h3.pair_fst(rest2, f3)->Ok_0;
            crate::laws::lemma_still(h3, h4, rest2, q.r2);
            lemma_snd(h4, rest2, f4, q.r2, q.tr, q.r3, b);
            let (h5, (rest3, f5)) = h4.pair_snd(rest2, f4)->Ok_0;
            lemma_fst(h5, rest3, f5, q.r3, q.bl, q.br, b);
            let (h6, (n2, f6)) = h5.pair_fst(rest3, f5)->Ok_0;
            crate::laws::lemma_still(h5, h6, rest3, q.r3);
            lemma_snd(h6, rest3, f6, q.r3, q.bl, q.br, b);
            let (h7, (n3, f7)) = h6.pair_snd(rest3, f6)->Ok_0;
            crate::laws::lemma_still(h2, h7, n0, q.tl);
            crate::laws::lemma_still(h4, h7, n1, q.tr);
            crate::laws::lemma_still(h6, h7, n2, q.bl);
        },
        Layout::Nested => {
            lemma_fst(h, node, fuel, t, q.r0, q.r1, b);
            let (h1, (top, f1)) = h.pair_fst(node, fuel)->Ok_0;
            crate::laws::lemma_still(h, h1, node, t);
            lemma_snd(h1, node, f1, t, q.r0, q.r1, b);
            let (h2, (bottom, f2)) = h1.pair_snd(node, f1)->Ok_0;
            crate::laws::lemma_still(h1, h2, top, q.r0);
            lemma_fst(h2, top, f2, q.r0, q.tl, q.tr, b);
            let (h3, (n0, f3)) = h2.pair_fst(top, f2)->Ok_0;
            crate::laws::lemma_still(h2, h3, top, q.r0);
            lemma_snd(h3, top, f3, q.r0, q.tl, q.tr, b);
            let (h4, (n1, f4)) = h3.pair_snd(top, f3)->Ok_0;
            crate::laws::lemma_still(h2, h4, bottom, q.r1);
            lemma_fst(h4, bottom, f4, q.r1, q.bl, q.br, b);
            let (h5, (n2, f5)) = h4.pair_fst(bottom, f4)->Ok_0;
            crate::laws::lemma_still(h4, h5, bottom, q.r1);
            lemma_snd(h5, bottom, f5, q.r1, q.bl, q.br, b);
            let (h6, (n3, f6)) = h5.pair_snd(bottom, f5)->Ok_0;
            crate::laws::lemma_still(h3, h6, n0, q.tl);
            crate::laws::lemma_still(h4, h6, n1, q.tr);
            crate::laws::lemma_still(h5, h6, n2, q.bl);
        },
    }
}

/// What a picture with quarters takes.
proof fn lemma_picture_need(n0: nat, n1: nat, n2: nat, n3: nat, b: nat)
    ensures
        8 * b * (1 + n0 + n1 + n2 + n3) == 8 * b + 8 * b * n0 + 8 * b * n1 + 8 * b * n2 + 8 * b
            * n3,
        (40 + 24 * b) * (1 + n0 + n1 + n2 + n3) == 40 + 24 * b + (40 + 24 * b) * n0 + (40 + 24 * b)
            * n1 + (40 + 24 * b) * n2 + (40 + 24 * b) * n3,
        8 * b * n0 >= 0 && 8 * b * n1 >= 0 && 8 * b * n2 >= 0 && 8 * b * n3 >= 0,
        (40 + 24 * b) * n0 >= 0 && (40 + 24 * b) * n1 >= 0 && (40 + 24 * b) * n2 >= 0 && (40 + 24
            * b) * n3 >= 0,
{
    let c = 40 + 24 * b;
    let d = 8 * b;
    let n = 1 + n0 + n1 + n2 + n3;
    assert(d * n == d + d * n0 + d * n1 + d * n2 + d * n3 && c * n == c + c * n0 + c * n1 + c * n2
        + c * n3 && d * n0 >= 0 && d * n1 >= 0 && d * n2 >= 0 && d * n3 >= 0 && c * n0 >= 0 && c
        * n1 >= 0 && c * n2 >= 0 && c * n3 >= 0) by (nonlinear_arith)
        requires
            n == 1 + n0 + n1 + n2 + n3,
            c >= 0,
            d >= 0,
    ;
}

/// An expression that is a picture is drawn as the picture, however it
/// computes it: given fuel and room for its parts, each of which takes `b`
/// reductions at most. A node is given 200 000 to be a boolean.
pub proof fn lemma_render_picture(
    h: Heap,
    layout: Layout,
    node: u32,
    t: Term,
    p: Picture,
    b: nat,
    c: Canvas,
    x: int,
    y: int,
    size: nat,
    w: int,
)
    requires
        h.wf(),
        h.live(node),
        t.reduces(h.term(node)),
        t.is_picture(p, layout, b),
        b < 200_000,
        c.fuel > 8 * b * p.parts(),
        h.room() >= (40 + 24 * b) * p.parts(),
    ensures
        h.render(layout, node, c, x, y, size, w) matches Ok((h1, c1)) && {
            &&& h.leads_to(h1)
            &&& c.fuel <= c1.fuel + 8 * b * p.parts()
            &&& c1.fuel <= c.fuel
            &&& h1.room() + (40 + 24 * b) * p.parts() >= h.room()
            &&& c1.pixels == p.paint(layout, c.pixels, x, y, size, w)
            &&& c1.count == c.count + p.painted(size)
        },
    decreases p,
{
    crate::heap::lemma_leads_refl(h);
    assert(8 * b * p.parts() >= 0 && (40 + 24 * b) * p.parts() >= 0) by (nonlinear_arith)
        requires
            b >= 0,
            p.parts() >= 0,
    ;
    if size > 0 {
        let f0 = at_most(c.fuel, 200_000);
        match p {
            Picture::Plain(v) => {
                assert(8 * b * 1 == 8 * b && (40 + 24 * b) * 1 == 40 + 24 * b);
                crate::meaning::lemma_read_bool(h, node, f0, t, v, b);
            },
            Picture::Quad(v, tl, tr, bl, br) => {
                lemma_picture_need(tl.parts(), tr.parts(), bl.parts(), br.parts(), b);
                let q = choose|q: Parts| #[trigger]
                    t.has_quarters(q, layout, v, b) && q.tl.is_picture(*tl, layout, b)
                        && q.tr.is_picture(*tr, layout, b) && q.bl.is_picture(*bl, layout, b)
                        && q.br.is_picture(*br, layout, b);
                crate::meaning::lemma_read_no_bool(h, node, f0, t, b);
                let (h1, _) = h.decode_bool(node, f0)->Ok_0;
                crate::laws::lemma_still(h, h1, node, t);
                if size == 1 {
                    if layout is Diamond {
                        lemma_fst(h1, node, c.fuel, t, q.r0, q.r1, b);
                        let (h2, (cond, f1)) = h1.pair_fst(node, c.fuel)->Ok_0;
                        crate::meaning::lemma_read_bool(
                            h2,
                            cond,
                            at_most(f1, 200_000),
                            q.r0,
                            v,
                            b,
                        );
                    } else {
                        crate::heap::lemma_leads_refl(h1);
                    }
                } else {
                    lemma_quarters(h1, layout, node, c.fuel, t, q, v, b);
                    let (h2, (n, f)) = h1.quarters(layout, node, c.fuel)->Ok_0;
                    let half = size / 2;
                    let c2 = Canvas { fuel: f, ..c };
                    lemma_render_picture(h2, layout, n.tl, q.tl, *tl, b, c2, x, y, half, w);
                    let (h3, c3) = h2.render(layout, n.tl, c2, x, y, half, w)->Ok_0;
                    crate::laws::lemma_still(h2, h3, n.tr, q.tr);
                    lemma_render_picture(h3, layout, n.tr, q.tr, *tr, b, c3, x + half, y, half, w);
                    let (h4, c4) = h3.render(layout, n.tr, c3, x + half, y, half, w)->Ok_0;
                    crate::laws::lemma_still(h2, h4, n.bl, q.bl);
                    lemma_render_picture(h4, layout, n.bl, q.bl, *bl, b, c4, x, y + half, half, w);
                    let (h5, c5) = h4.render(layout, n.bl, c4, x, y + half, half, w)->Ok_0;
                    crate::laws::lemma_still(h2, h5, n.br, q.br);
                    lemma_render_picture(
                        h5,
                        layout,
                        n.br,
                        q.br,
                        *br,
                        b,
                        c5,
                        x + half,
                        y + half,
                        half,
                        w,
                    );
                }
            },
        }
    }
}

} // verus!
