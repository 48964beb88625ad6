//! What the pixels of a quadtree promise: each is the color of the leaf that the
//! binary digits of its place lead to.

use vstd::prelude::*;
use vstd::arithmetic::power2::pow2;
use crate::heap::Heap;
use crate::image::{Canvas, Layout, Picture};
use crate::scene::Scene;
use crate::term::Term;
use crate::zoom::ZoomView;

verus! {

broadcast use crate::heap::group_leads;

/// A binary digit of a number, the lowest being number zero.
pub open spec fn bit(x: nat, d: nat) -> nat {
    (x / pow2(d)) % 2
}

/// The quarter that the digits number `d` of a row and a column lead to.
pub open spec fn turn(row: nat, col: nat, d: nat) -> nat {
    2 * bit(row, d) + bit(col, d)
}

impl Scene {
    /// The part of the scene that the lowest digits of a row and a column lead
    /// to, the highest of them first.
    pub open spec fn leaf(self, row: nat, col: nat, digits: nat) -> Scene
        decreases digits,
    {
        if digits == 0 {
            self
        } else {
            let d = (digits - 1) as nat;
            self.quarter(turn(row, col, d)).leaf(row, col, d)
        }
    }
}

/// A power of two can be halved as often as its exponent says.
pub proof fn lemma_log2_pow2(k: nat)
    ensures
        crate::shared::floor_log2(pow2(k)) == k,
        pow2(k) > 0,
    decreases k,
{
    vstd::arithmetic::power2::lemma2_to64();
    vstd::arithmetic::power2::lemma_pow2_pos(k);
    if k > 0 {
        vstd::arithmetic::power2::lemma_pow2_unfold(k);
        lemma_log2_pow2((k - 1) as nat);
    }
}

/// The number of halvings is the exponent of the largest power of two that is
/// not above the number.
pub proof fn lemma_log2(n: nat)
    requires
        n > 0,
    ensures
        pow2(crate::shared::floor_log2(n)) <= n < pow2(crate::shared::floor_log2(n) + 1),
    decreases n,
{
    vstd::arithmetic::power2::lemma2_to64();
    if n > 1 {
        let l = crate::shared::floor_log2(n);
        lemma_log2(n / 2);
        vstd::arithmetic::power2::lemma_pow2_unfold(l);
        vstd::arithmetic::power2::lemma_pow2_unfold(l + 1);
    }
}

/// The highest of the lowest `d + 1` digits says in which half a place lies.
proof fn lemma_half(x: nat, d: nat)
    ensures
        pow2(d + 1) == 2 * pow2(d),
        pow2(d) > 0,
        x % pow2(d + 1) < pow2(d) <==> bit(x, d) == 0,
        crate::shared::within_half(x % pow2(d + 1), pow2(d)) == x % pow2(d),
{
    let h = pow2(d);
    vstd::arithmetic::power2::lemma_pow2_pos(d);
    vstd::arithmetic::power2::lemma_pow2_unfold(d + 1);
    vstd::arithmetic::div_mod::lemma_mod_breakdown(x as int, h as int, 2);
    vstd::arithmetic::div_mod::lemma_mod_bound(x as int, h as int);
    let m = bit(x, d);
    assert(h * 2 == 2 * h) by (nonlinear_arith);
    assert(m == 0 || m == 1);
    assert(h * 0 == 0 && h * 1 == h) by (nonlinear_arith);
}

/// The color at a place is that of the leaf that its digits lead to.
proof fn lemma_color_at(s: Scene, row: nat, col: nat, k: nat)
    ensures
        s.color_at(row % pow2(k), col % pow2(k), pow2(k), k) == s.leaf(row, col, k).color(),
    decreases k,
{
    vstd::arithmetic::power2::lemma_pow2_pos(k);
    if k > 0 {
        let d = (k - 1) as nat;
        lemma_half(row, d);
        lemma_half(col, d);
        lemma_color_at(s.quarter(turn(row, col, d)), row, col, d);
        assert(d + 1 == k);
        let (r, c) = (row % pow2(k), col % pow2(k));
        assert(pow2(k) / 2 == pow2(d));
        assert(bit(row, d) == 0 || bit(row, d) == 1);
        assert(bit(col, d) == 0 || bit(col, d) == 1);
        assert(crate::shared::quarter_of(r, c, pow2(d)) == turn(row, col, d));
    }
}

/// An image of a power of two of rows and columns, drawn of scenes with that
/// many levels: the pixel in a row and a column is white where the leaf is true
/// that the binary digits of the row and the column lead to, from the highest
/// to the lowest, and black where it is false.
pub proof fn lemma_drawn(
    h: Heap,
    z: ZoomView,
    k: nat,
    fuel: nat,
    min_free: nat,
    ss: Seq<Scene>,
    b: nat,
)
    requires
        h.views(z, ss, b),
        forall|q: int| 0 <= q < 4 ==> (#[trigger] ss[q]).deep(k),
        fuel > b,
        h.room() >= pow2(k + 1) * (pow2(k + 1) * ((1 + 3 * b) * k + 5 + 6 * b)),
    ensures
        h.shared_rows(z, 0, pow2(k + 1), fuel, min_free, Seq::empty(), Seq::empty()) matches Ok(
            (h1, (p, _)),
        ) && h1.views(z, ss, b) && p.len() == pow2(k + 1) * pow2(k + 1) && forall|
            row: nat,
            col: nat,
        |
            row < pow2(k + 1) && col < pow2(k + 1) ==> #[trigger] p[(row * pow2(k + 1) + col) as int]
                == if ss[turn(row, col, k) as int].leaf(row, col, k).color() {
                255u8
            } else {
                0u8
            },
{
    let size = pow2(k + 1);
    lemma_half(0, k);
    lemma_log2_pow2(k);
    assert(size / 2 == pow2(k));
    crate::journey::lemma_draw_views(h, z, size, fuel, min_free, ss, b);
    let (h1, (p, rows)) = h.shared_rows(
        z,
        0,
        size,
        fuel,
        min_free,
        Seq::empty(),
        Seq::empty(),
    )->Ok_0;
    assert forall|row: nat, col: nat| row < size && col < size implies #[trigger] p[(row * size
        + col) as int] == if ss[turn(row, col, k) as int].leaf(row, col, k).color() {
        255u8
    } else {
        0u8
    } by {
        let i = row * size + col;
        assert(i < size * size) by (nonlinear_arith)
            requires
                i == row * size + col,
                row + 1 <= size,
                col < size,
        ;
        vstd::arithmetic::div_mod::lemma_fundamental_div_mod_converse(
            i as int,
            size as int,
            row as int,
            col as int,
        );
        lemma_half(row, k);
        lemma_half(col, k);
        vstd::arithmetic::div_mod::lemma_small_mod(row, size);
        vstd::arithmetic::div_mod::lemma_small_mod(col, size);
        lemma_color_at(ss[turn(row, col, k) as int], row, col, k);
        assert(p[i as int] == crate::scene::scene_pixels(ss, size)[i as int]);
    }
}

impl Picture {
    /// A quarter by its number: top left, top right, bottom left, bottom right,
    /// from zero.
    pub open spec fn quarter(self, q: nat) -> Picture {
        match self {
            Picture::Plain(_) => self,
            Picture::Quad(_, tl, tr, bl, br) => if q == 0 {
                *tl
            } else if q == 1 {
                *tr
            } else if q == 2 {
                *bl
            } else {
                *br
            },
        }
    }

    /// The color at a row and a column of a square of two to the `k` rows and
    /// columns. There is none where a pixel has quarters, and no color beside
    /// them.
    pub open spec fn color_at(self, layout: Layout, row: nat, col: nat, k: nat) -> Option<bool>
        decreases k,
    {
        match self {
            Picture::Plain(v) => Some(v),
            Picture::Quad(v, ..) => if k == 0 {
                if layout is Diamond {
                    Some(v)
                } else {
                    None
                }
            } else {
                let half = pow2((k - 1) as nat);
                self.quarter(2 * (row / half) + col / half).color_at(
                    layout,
                    row % half,
                    col % half,
                    (k - 1) as nat,
                )
            },
        }
    }

    /// How many pixels of a square are painted.
    pub open spec fn painted(self, size: nat) -> nat
        decreases self,
    {
        if size == 0 {
            0
        } else {
            match self {
                Picture::Plain(_) => size * size,
                Picture::Quad(_, tl, tr, bl, br) => if size == 1 {
                    1
                } else {
                    tl.painted(size / 2) + tr.painted(size / 2) + bl.painted(size / 2) + br.painted(
                        size / 2,
                    )
                },
            }
        }
    }
}

/// The gray level of a color: black for true, white for false, gray for none.
pub open spec fn is_tone(p: u8, color: Option<bool>) -> bool {
    match color {
        Some(v) => p == if v {
            0u8
        } else {
            255u8
        },
        None => p == 128,
    }
}

/// A place in one half of a square.
proof fn lemma_place(r: nat, h: nat)
    requires
        h > 0,
        r < 2 * h,
    ensures
        r < h ==> r / h == 0 && r % h == r,
        r >= h ==> r / h == 1 && r % h == r - h,
{
    if r < h {
        vstd::arithmetic::div_mod::lemma_fundamental_div_mod_converse(
            r as int,
            h as int,
            0,
            r as int,
        );
    } else {
        assert(1 * h == h) by (nonlinear_arith);
        vstd::arithmetic::div_mod::lemma_fundamental_div_mod_converse(
            r as int,
            h as int,
            1,
            r - h,
        );
    }
}

/// A square that is filled has the color at its places, as far as they lie in the
/// image, and all other pixels stay.
pub proof fn lemma_filled(
    pixels: Seq<u8>,
    x: int,
    y: int,
    size: int,
    color: u8,
    w: int,
    px: int,
    py: int,
)
    requires
        0 <= px < w,
        0 <= py < w,
        w * w <= pixels.len(),
    ensures
        crate::image::filled(pixels, x, y, size, color, w).len() == pixels.len(),
        crate::image::filled(pixels, x, y, size, color, w)[py * w + px] == if x <= px < x + size && y
            <= py < y + size {
            color
        } else {
            pixels[py * w + px]
        },
        forall|i: int|
            w * w <= i < pixels.len() ==> #[trigger] crate::image::filled(
                pixels,
                x,
                y,
                size,
                color,
                w,
            )[i] == pixels[i],
{
    let i = py * w + px;
    assert(0 <= i < w * w) by (nonlinear_arith)
        requires
            i == py * w + px,
            0 <= px < w,
            0 <= py,
            py + 1 <= w,
    ;
    vstd::arithmetic::div_mod::lemma_fundamental_div_mod_converse(i, w, py, px);
}

/// Painting a picture into a square of two to the `k` rows and columns gives
/// each pixel of the square the color at its place, and leaves the others.
pub proof fn lemma_paint(
    p: Picture,
    layout: Layout,
    pixels: Seq<u8>,
    x: int,
    y: int,
    k: nat,
    w: int,
    px: int,
    py: int,
)
    requires
        0 <= px < w,
        0 <= py < w,
        0 <= x,
        0 <= y,
        w * w <= pixels.len(),
    ensures
        p.paint(layout, pixels, x, y, pow2(k), w).len() == pixels.len(),
        x <= px < x + pow2(k) && y <= py < y + pow2(k) ==> is_tone(
            p.paint(layout, pixels, x, y, pow2(k), w)[py * w + px],
            p.color_at(layout, (py - y) as nat, (px - x) as nat, k),
        ),
        !(x <= px < x + pow2(k) && y <= py < y + pow2(k)) ==> p.paint(
            layout,
            pixels,
            x,
            y,
            pow2(k),
            w,
        )[py * w + px] == pixels[py * w + px],
    decreases p,
{
    vstd::arithmetic::power2::lemma_pow2_pos(k);
    vstd::arithmetic::power2::lemma2_to64();
    let i = py * w + px;
    assert(0 <= i < w * w) by (nonlinear_arith)
        requires
            i == py * w + px,
            0 <= px < w,
            0 <= py,
            py + 1 <= w,
    ;
    vstd::arithmetic::div_mod::lemma_fundamental_div_mod_converse(i, w, py, px);
    match p {
        Picture::Plain(v) => {},
        Picture::Quad(v, tl, tr, bl, br) => {
            if k == 0 {
                if x < w && y < w {
                    let j = y * w + x;
                    assert(0 <= j < w * w) by (nonlinear_arith)
                        requires
                            j == y * w + x,
                            0 <= x < w,
                            0 <= y,
                            y + 1 <= w,
                    ;
                    vstd::arithmetic::div_mod::lemma_fundamental_div_mod_converse(j, w, y, x);
                }
            } else {
                let d = (k - 1) as nat;
                let half = pow2(d);
                vstd::arithmetic::power2::lemma_pow2_pos(d);
                vstd::arithmetic::power2::lemma_pow2_unfold(k);
                assert(pow2(k) / 2 == half);
                assert(pow2(k) > 1);
                let p1 = tl.paint(layout, pixels, x, y, half, w);
                let p2 = tr.paint(layout, p1, x + half, y, half, w);
                let p3 = bl.paint(layout, p2, x, y + half, half, w);
                lemma_paint(*tl, layout, pixels, x, y, d, w, px, py);
                lemma_paint(*tr, layout, p1, x + half, y, d, w, px, py);
                lemma_paint(*bl, layout, p2, x, y + half, d, w, px, py);
                lemma_paint(*br, layout, p3, x + half, y + half, d, w, px, py);
                if x <= px < x + pow2(k) && y <= py < y + pow2(k) {
                    lemma_place((py - y) as nat, half);
                    lemma_place((px - x) as nat, half);
                }
            }
        },
    }
}

/// A square of two to the `k` rows and columns is painted in full.
pub proof fn lemma_painted(p: Picture, k: nat)
    ensures
        p.painted(pow2(k)) == pow2(k) * pow2(k),
    decreases p,
{
    vstd::arithmetic::power2::lemma_pow2_pos(k);
    vstd::arithmetic::power2::lemma2_to64();
    assert(1nat * 1nat == 1) by (nonlinear_arith);
    if let Picture::Quad(v, tl, tr, bl, br) = p {
        if k > 0 {
            let d = (k - 1) as nat;
            let half = pow2(d);
            vstd::arithmetic::power2::lemma_pow2_pos(d);
            vstd::arithmetic::power2::lemma_pow2_unfold(k);
            lemma_painted(*tl, d);
            lemma_painted(*tr, d);
            lemma_painted(*bl, d);
            lemma_painted(*br, d);
            assert(pow2(k) / 2 == half);
            assert((2 * half) * (2 * half) == 4 * (half * half)) by (nonlinear_arith);
        }
    }
}

/// An expression that is a picture is drawn into a square of two to the `k` rows
/// and columns pixel by pixel: black where the color at the place is true, white
/// where it is false, however the expression computes it. Pixels beside the
/// square stay, and those of the square are counted.
pub proof fn lemma_render_pixels(
    h: Heap,
    layout: Layout,
    node: u32,
    t: Term,
    p: Picture,
    b: nat,
    c: Canvas,
    x: int,
    y: int,
    k: nat,
    w: int,
)
    requires
        h.wf(),
        h.live(node),
        t.reduces(h.term(node)),
        t.is_picture(p, layout, b),
        b < 200_000,
        c.fuel > 8 * b * p.parts(),
        h.room() >= (40 + 24 * b) * p.parts(),
        0 <= x,
        0 <= y,
        w * w <= c.pixels.len(),
    ensures
        h.render(layout, node, c, x, y, pow2(k), w) matches Ok((h1, c1)) && {
            &&& c1.pixels.len() == c.pixels.len()
            &&& c1.count == c.count + pow2(k) * pow2(k)
            &&& forall|px: int, py: int|
                0 <= px < w && 0 <= py < w ==> if x <= px < x + pow2(k) && y <= py < y + pow2(k) {
                    is_tone(
                        #[trigger] c1.pixels[py * w + px],
                        p.color_at(layout, (py - y) as nat, (px - x) as nat, k),
                    )
                } else {
                    c1.pixels[py * w + px] == c.pixels[py * w + px]
                }
        },
{
    crate::image::lemma_render_picture(h, layout, node, t, p, b, c, x, y, pow2(k), w);
    lemma_painted(p, k);
    let (h1, c1) = h.render(layout, node, c, x, y, pow2(k), w)->Ok_0;
    lemma_paint_len(p, layout, c.pixels, x, y, pow2(k), w);
    assert forall|px: int, py: int| 0 <= px < w && 0 <= py < w implies if x <= px < x + pow2(k) && y
        <= py < y + pow2(k) {
        is_tone(
            #[trigger] c1.pixels[py * w + px],
            p.color_at(layout, (py - y) as nat, (px - x) as nat, k),
        )
    } else {
        c1.pixels[py * w + px] == c.pixels[py * w + px]
    } by {
        lemma_paint(p, layout, c.pixels, x, y, k, w, px, py);
    }
}

/// Nothing is drawn without fuel, nor into no pixels. A node that is no boolean
/// and is to be a single pixel is gray, unless the layout gives it a color of its
/// own that is a boolean: then it is black or white.
pub proof fn lemma_render_dot(
    h: Heap,
    layout: Layout,
    node: u32,
    t: Term,
    cond: Term,
    rest: Term,
    v: bool,
    b: nat,
    c: Canvas,
    x: int,
    y: int,
    size: nat,
    w: int,
)
    requires
        h.wf(),
        h.live(node),
        t.reduces(h.term(node)),
        t.is_no_bool(b),
        b < 200_000,
        c.fuel == 0 || c.fuel > 2 * b,
        h.room() >= 40 + 24 * b,
        0 <= x < w,
        0 <= y < w,
        w * w <= c.pixels.len(),
    ensures
        c.fuel == 0 || size == 0 ==> h.render(layout, node, c, x, y, size, w) == Ok::<
            (Heap, Canvas),
            crate::heap::AllocError,
        >((h, c)),
        c.fuel > 0 && size == 1 && layout == Layout::Nested ==> (h.render(
            layout,
            node,
            c,
            x,
            y,
            size,
            w,
        ) matches Ok((_, c1)) && c1.pixels == c.pixels.update(y * w + x, 128) && c1.count == c.count
            + 1),
        c.fuel > 0 && size == 1 && layout == Layout::Diamond && t.has_parts(cond, rest, b)
            && cond.is_no_bool(b) ==> (h.render(layout, node, c, x, y, size, w) matches Ok((_, c1))
            && c1.pixels == c.pixels.update(y * w + x, 128) && c1.count == c.count + 1),
        c.fuel > 0 && size == 1 && layout == Layout::Diamond && t.has_parts(cond, rest, b)
            && cond.says(v, b) ==> (h.render(layout, node, c, x, y, size, w) matches Ok((_, c1))
            && c1.pixels == c.pixels.update(
            y * w + x,
            if v {
                0u8
            } else {
                255u8
            },
        ) && c1.count == c.count + 1),
{
    if c.fuel > 0 && size == 1 {
        let f0 = crate::image::at_most(c.fuel, 200_000);
        crate::meaning::lemma_read_no_bool(h, node, f0, t, b);
        let (h1, _) = h.decode_bool(node, f0)->Ok_0;
        crate::laws::lemma_still(h, h1, node, t);
        if layout == Layout::Diamond && t.has_parts(cond, rest, b) {
            crate::meaning::lemma_read_fst(h1, node, c.fuel, t, cond, rest, b);
            let (h2, (n, f1)) = h1.pair_fst(node, c.fuel)->Ok_0;
            let f2 = crate::image::at_most(f1, 200_000);
            if cond.is_no_bool(b) {
                crate::meaning::lemma_read_no_bool(h2, n, f2, cond, b);
            }
            if cond.says(v, b) {
                crate::meaning::lemma_read_bool(h2, n, f2, cond, v, b);
            }
        }
    }
}

proof fn lemma_paint_len(
    p: Picture,
    layout: Layout,
    pixels: Seq<u8>,
    x: int,
    y: int,
    size: nat,
    w: int,
)
    requires
        0 <= x,
        0 <= y,
        w * w <= pixels.len(),
    ensures
        p.paint(layout, pixels, x, y, size, w).len() == pixels.len(),
    decreases p,
{
    if x < w && y < w {
        let j = y * w + x;
        assert(0 <= j < w * w) by (nonlinear_arith)
            requires
                j == y * w + x,
                0 <= x < w,
                0 <= y,
                y + 1 <= w,
        ;
    }
    if size > 1 {
        if let Picture::Quad(v, tl, tr, bl, br) = p {
            let half = size / 2;
            let p1 = tl.paint(layout, pixels, x, y, half, w);
            let p2 = tr.paint(layout, p1, x + half, y, half, w);
            let p3 = bl.paint(layout, p2, x, y + half, half, w);
            lemma_paint_len(*tl, layout, pixels, x, y, half, w);
            lemma_paint_len(*tr, layout, p1, x + half, y, half, w);
            lemma_paint_len(*bl, layout, p2, x, y + half, half, w);
            lemma_paint_len(*br, layout, p3, x + half, y + half, half, w);
        }
    }
}

} // verus!
