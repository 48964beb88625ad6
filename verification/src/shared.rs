//! Drawing the quarters that a [`Zoom`] looks at, with shared evaluation.

use vstd::prelude::*;
use crate::arena::Arena;
use crate::heap::{AllocError, Heap, Outcome};
use crate::select::decode_bool;
use crate::zoom::{field, gc_zoom_roots, GcReport, Zoom, ZoomView};

verus! {

broadcast use crate::heap::group_leads;

/// How often a number can be halved before it is one.
pub open spec fn floor_log2(n: nat) -> nat
    decreases n,
{
    if n <= 1 {
        0
    } else {
        1 + floor_log2(n / 2)
    }
}

/// How often a number can be halved before it is one.
fn log2(n: usize) -> (k: usize)
    ensures
        k == floor_log2(n as nat),
        k <= n,
    decreases n,
{
    if n <= 1 {
        0
    } else {
        1 + log2(n / 2)
    }
}

/// The number of the quarter of a square of `2 * half` columns and rows in
/// which a place lies: top left, top right, bottom left, bottom right, from
/// zero.
pub open spec fn quarter_of(row: nat, col: nat, half: nat) -> nat {
    if row < half {
        if col < half {
            0
        } else {
            1
        }
    } else {
        if col < half {
            2
        } else {
            3
        }
    }
}

/// A place within its half.
pub open spec fn within_half(x: nat, half: nat) -> nat {
    if x < half {
        x
    } else {
        (x - half) as nat
    }
}

/// White for true, black for false, gray otherwise.
pub open spec fn light(b: Option<bool>) -> u8 {
    match b {
        Some(true) => 255,
        Some(false) => 0,
        None => 128,
    }
}

/// A row that was drawn: the number of nodes and of free nodes after it, and
/// the collection that followed.
#[derive(Clone, Copy, PartialEq, Eq, Structural, Debug)]
pub struct RowReport {
    pub nodes: usize,
    pub free: usize,
    pub gc: Option<GcReport>,
}

/// The rows that were drawn.
pub struct Rendered {
    pub pixels: Vec<u8>,
    pub rows: Vec<RowReport>,
}

impl ZoomView {
    /// A quarter by its number.
    pub open spec fn root(self, q: nat) -> u32 {
        if q == 0 {
            self.tl
        } else if q == 1 {
            self.tr
        } else if q == 2 {
            self.bl
        } else {
            self.br
        }
    }
}

impl Heap {
    /// Goes down `levels` levels to the node at a place of a square; there is
    /// none where the fuel runs out.
    pub open spec fn descend(
        self,
        sels: Seq<u32>,
        node: u32,
        row: nat,
        col: nat,
        size: nat,
        levels: nat,
        fuel: nat,
    ) -> Outcome<Option<u32>>
        decreases levels,
    {
        if levels == 0 {
            Ok((self, Some(node)))
        } else {
            let half = size / 2;
            match self.field(node, sels[(1 + quarter_of(row, col, half)) as int], fuel) {
                Err(e) => Err(e),
                Ok((h, (child, f))) => if f == 0 {
                    Ok((h, None))
                } else {
                    h.descend(
                        sels,
                        child,
                        within_half(row, half),
                        within_half(col, half),
                        half,
                        (levels - 1) as nat,
                        fuel,
                    )
                },
            }
        }
    }

    /// The color of a node as a pixel.
    pub open spec fn light_of(self, sels: Seq<u32>, node: u32, fuel: nat) -> Outcome<u8> {
        match self.field(node, sels[0], fuel) {
            Err(e) => Err(e),
            Ok((h1, (cond, f))) => if f == 0 {
                Ok((h1, 128))
            } else {
                match h1.decode_bool(cond, fuel) {
                    Err(e) => Err(e),
                    Ok((h2, b)) => Ok((h2, light(b))),
                }
            },
        }
    }

    /// The pixel at a place.
    #[verifier::opaque]
    pub open spec fn shared_pixel(
        self,
        z: ZoomView,
        row: nat,
        col: nat,
        size: nat,
        fuel: nat,
    ) -> Outcome<u8> {
        let half = size / 2;
        match self.descend(
            z.sels,
            z.root(quarter_of(row, col, half)),
            within_half(row, half),
            within_half(col, half),
            half,
            floor_log2(half),
            fuel,
        ) {
            Err(e) => Err(e),
            Ok((h, None)) => Ok((h, 128)),
            Ok((h, Some(node))) => h.light_of(z.sels, node, fuel),
        }
    }

    /// Draws the rest of a row.
    pub open spec fn shared_row(
        self,
        z: ZoomView,
        row: nat,
        col: nat,
        size: nat,
        fuel: nat,
        pixels: Seq<u8>,
    ) -> Outcome<Seq<u8>>
        decreases size - col,
    {
        if col >= size {
            Ok((self, pixels))
        } else {
            match self.shared_pixel(z, row, col, size, fuel) {
                Err(e) => Err(e),
                Ok((h, p)) => h.shared_row(z, row, col + 1, size, fuel, pixels.push(p)),
            }
        }
    }

    /// Draws the rest of an image; after a row that leaves fewer than
    /// `min_free` nodes free, collects.
    pub open spec fn shared_rows(
        self,
        z: ZoomView,
        row: nat,
        size: nat,
        fuel: nat,
        min_free: nat,
        pixels: Seq<u8>,
        rows: Seq<RowReport>,
    ) -> Outcome<(Seq<u8>, Seq<RowReport>)>
        decreases size - row,
    {
        if row >= size {
            Ok((self, (pixels, rows)))
        } else {
            match self.shared_row(z, row, 0, size, fuel, pixels) {
                Err(e) => Err(e),
                Ok((h, p)) => {
                    let low = h.graph.free.len() < min_free;
                    let h1 = if low {
                        h.gc_zoom(z)
                    } else {
                        h
                    };
                    let report = RowReport {
                        nodes: h.graph.nodes.len() as usize,
                        free: h.graph.free.len() as usize,
                        gc: if low {
                            Some(h1.report(h))
                        } else {
                            None
                        },
                    };
                    h1.shared_rows(z, row + 1, size, fuel, min_free, p, rows.push(report))
                },
            }
        }
    }
}

/// The place in the quarters.
fn quarter(row: usize, col: usize, half: usize) -> (q: usize)
    ensures
        q == quarter_of(row as nat, col as nat, half as nat),
        q < 4,
{
    if row < half {
        if col < half {
            0
        } else {
            1
        }
    } else {
        if col < half {
            2
        } else {
            3
        }
    }
}

fn in_half(x: usize, half: usize) -> (y: usize)
    ensures
        y == within_half(x as nat, half as nat),
{
    if x < half {
        x
    } else {
        x - half
    }
}

/// Goes down to the node at a place of a square.
fn descend(
    arena: &mut Arena,
    sels: &Vec<u32>,
    start: u32,
    row: usize,
    col: usize,
    size: usize,
    levels: usize,
    fuel: u64,
) -> (r: Result<Option<u32>, AllocError>)
    requires
        old(arena)@.wf(),
        old(arena)@.live(start),
        sels@.len() == 5,
        old(arena)@.all_live(sels@),
    ensures
        Heap::ran(
            old(arena)@.descend(
                sels@,
                start,
                row as nat,
                col as nat,
                size as nat,
                levels as nat,
                fuel as nat,
            ),
            final(arena)@,
            r,
        ),
        old(arena)@.leads_to(final(arena)@),
        r matches Ok(Some(n)) ==> final(arena)@.live(n),
{
    let ghost h0 = arena@;
    let ghost goal = h0.descend(
        sels@,
        start,
        row as nat,
        col as nat,
        size as nat,
        levels as nat,
        fuel as nat,
    );
    let mut node: u32 = start;
    let mut r: usize = row;
    let mut c: usize = col;
    let mut s: usize = size;
    let mut k: usize = 0;
    proof {
        crate::heap::lemma_leads_refl(h0);
    }
    while k < levels
        invariant
            k <= levels,
            h0 == old(arena)@,
            h0.leads_to(arena@),
            arena@.wf(),
            arena@.live(node),
            sels@.len() == 5,
            h0.all_live(sels@),
            goal == h0.descend(
                sels@,
                start,
                row as nat,
                col as nat,
                size as nat,
                levels as nat,
                fuel as nat,
            ),
            goal == arena@.descend(
                sels@,
                node,
                r as nat,
                c as nat,
                s as nat,
                (levels - k) as nat,
                fuel as nat,
            ),
        decreases levels - k,
    {
        let half: usize = s / 2;
        let q: usize = quarter(r, c, half);
        assert(h0.live(sels@[1 + q]));
        let mut f: u64 = fuel;
        node = field(arena, node, sels[1 + q], &mut f)?;
        if f == 0 {
            return Ok(None);
        }
        r = in_half(r, half);
        c = in_half(c, half);
        s = half;
        k += 1;
    }
    Ok(Some(node))
}

/// The color of a node as a pixel.
fn light_of(arena: &mut Arena, sels: &Vec<u32>, node: u32, fuel: u64) -> (r: Result<u8, AllocError>)
    requires
        old(arena)@.wf(),
        old(arena)@.live(node),
        sels@.len() == 5,
        old(arena)@.all_live(sels@),
    ensures
        Heap::ran(old(arena)@.light_of(sels@, node, fuel as nat), final(arena)@, r),
        old(arena)@.leads_to(final(arena)@),
{
    assert(arena@.live(sels@[0]));
    let mut f: u64 = fuel;
    let cond: u32 = field(arena, node, sels[0], &mut f)?;
    if f == 0 {
        return Ok(128);
    }
    match decode_bool(arena, cond, fuel)? {
        Some(true) => Ok(255),
        Some(false) => Ok(0),
        None => Ok(128),
    }
}

/// The pixel at a place.
fn shared_pixel(arena: &mut Arena, z: &Zoom, row: usize, col: usize, size: usize, fuel: u64) -> (r:
    Result<u8, AllocError>)
    requires
        old(arena)@.wf(),
        z@.wf(old(arena)@),
    ensures
        Heap::ran(
            old(arena)@.shared_pixel(z@, row as nat, col as nat, size as nat, fuel as nat),
            final(arena)@,
            r,
        ),
        old(arena)@.leads_to(final(arena)@),
{
    let ghost h0 = arena@;
    proof {
        reveal(Heap::shared_pixel);
        crate::zoom::lemma_needed(z@, h0);
    }
    let half: usize = size / 2;
    let q: usize = quarter(row, col, half);
    let start: u32 = if q == 0 {
        z.tl
    } else if q == 1 {
        z.tr
    } else if q == 2 {
        z.bl
    } else {
        z.br
    };
    let found = descend(
        arena,
        &z.sels,
        start,
        in_half(row, half),
        in_half(col, half),
        half,
        log2(half),
        fuel,
    )?;
    proof {
        assert forall|k: int| 0 <= k < z@.sels.len() implies arena@.live(#[trigger] z@.sels[k]) by {
            assert(h0.live(z@.sels[k]));
        }
    }
    match found {
        None => Ok(128),
        Some(node) => light_of(arena, &z.sels, node, fuel),
    }
}

/// Draws a row.
fn shared_row(
    arena: &mut Arena,
    z: &Zoom,
    row: usize,
    size: usize,
    fuel: u64,
    pixels: &mut Vec<u8>,
) -> (r: Result<(), AllocError>)
    requires
        old(arena)@.wf(),
        z@.wf(old(arena)@),
    ensures
        match r {
            Ok(_) => old(arena)@.shared_row(
                z@,
                row as nat,
                0,
                size as nat,
                fuel as nat,
                old(pixels)@,
            ) == Ok::<(Heap, Seq<u8>), AllocError>((final(arena)@, final(pixels)@)),
            Err(e) => old(arena)@.shared_row(
                z@,
                row as nat,
                0,
                size as nat,
                fuel as nat,
                old(pixels)@,
            ) == Err::<(Heap, Seq<u8>), AllocError>(e),
        },
        old(arena)@.leads_to(final(arena)@),
        z@.wf(final(arena)@),
{
    let ghost h0 = arena@;
    let ghost p0 = pixels@;
    let ghost goal = h0.shared_row(z@, row as nat, 0, size as nat, fuel as nat, p0);
    let mut col: usize = 0;
    proof {
        crate::heap::lemma_leads_refl(h0);
    }
    while col < size
        invariant
            col <= size,
            h0 == old(arena)@,
            p0 == old(pixels)@,
            h0.leads_to(arena@),
            arena@.wf(),
            z@.wf(arena@),
            goal == h0.shared_row(z@, row as nat, 0, size as nat, fuel as nat, p0),
            goal == arena@.shared_row(
                z@,
                row as nat,
                col as nat,
                size as nat,
                fuel as nat,
                pixels@,
            ),
        decreases size - col,
    {
        let ghost h = arena@;
        let r = shared_pixel(arena, z, row, col, size, fuel);
        proof {
            crate::zoom::lemma_zoom_leads(z@, h, arena@);
        }
        let p: u8 = r?;
        pixels.push(p);
        col += 1;
    }
    Ok(())
}

/// Draws the four quarters as an image of `size` columns and rows, which
/// should be a power of two. After a row that leaves fewer than `min_free`
/// nodes free, collects.
pub fn render_shared(
    arena: &mut Arena,
    z: &mut Zoom,
    size: usize,
    fuel_per_pixel: u64,
    min_free: usize,
) -> (r: Result<Rendered, AllocError>)
    requires
        old(arena)@.wf(),
        old(z)@.wf(old(arena)@),
    ensures
        final(z)@ == old(z)@.forget(),
        match r {
            Ok(d) => old(arena)@.shared_rows(
                old(z)@.forget(),
                0,
                size as nat,
                fuel_per_pixel as nat,
                min_free as nat,
                Seq::empty(),
                Seq::empty(),
            ) == Ok::<(Heap, (Seq<u8>, Seq<RowReport>)), AllocError>(
                (final(arena)@, (d.pixels@, d.rows@)),
            ),
            Err(e) => old(arena)@.shared_rows(
                old(z)@.forget(),
                0,
                size as nat,
                fuel_per_pixel as nat,
                min_free as nat,
                Seq::empty(),
                Seq::empty(),
            ) == Err::<(Heap, (Seq<u8>, Seq<RowReport>)), AllocError>(e),
        },
        final(arena)@.wf(),
        final(z)@.wf(final(arena)@),
{
    let ghost h0 = arena@;
    proof {
        crate::zoom::lemma_needed(z@, h0);
        assert(crate::zoom::color_nodes(z@.forget().colors) =~= Seq::empty());
        crate::zoom::lemma_needed_live(z@.forget(), h0);
    }
    z.forget();
    let ghost goal = h0.shared_rows(
        z@,
        0,
        size as nat,
        fuel_per_pixel as nat,
        min_free as nat,
        Seq::empty(),
        Seq::empty(),
    );
    let mut pixels: Vec<u8> = Vec::new();
    let mut rows: Vec<RowReport> = Vec::new();
    let mut row: usize = 0;
    proof {
        assert(pixels@ =~= Seq::empty());
        assert(rows@ =~= Seq::empty());
    }
    while row < size
        invariant
            row <= size,
            h0 == old(arena)@,
            z@ == old(z)@.forget(),
            arena@.wf(),
            z@.wf(arena@),
            goal == h0.shared_rows(
                z@,
                0,
                size as nat,
                fuel_per_pixel as nat,
                min_free as nat,
                Seq::empty(),
                Seq::empty(),
            ),
            goal == arena@.shared_rows(
                z@,
                row as nat,
                size as nat,
                fuel_per_pixel as nat,
                min_free as nat,
                pixels@,
                rows@,
            ),
        decreases size - row,
    {
        shared_row(arena, z, row, size, fuel_per_pixel, &mut pixels)?;
        let nodes: usize = arena.len();
        let free: usize = arena.free_len();
        let gc = if free < min_free {
            Some(gc_zoom_roots(arena, z))
        } else {
            None
        };
        rows.push(RowReport { nodes, free, gc });
        row += 1;
    }
    Ok(Rendered { pixels, rows })
}

} // verus!
