//! The way into a quadtree: what every part of it keeps.

use vstd::prelude::*;
use crate::heap::Heap;
use crate::scene::Scene;
use crate::term::Term;
use crate::zoom::ZoomView;

verus! {

broadcast use crate::heap::group_leads;

impl Heap {
    /// The place looks at the scenes: its quarters stand for them, what it knows
    /// of nodes is true, and however deep one looks, a field takes `b`
    /// reductions at most.
    pub open spec fn views(self, z: ZoomView, ss: Seq<Scene>, b: nat) -> bool {
        &&& self.wf()
        &&& z.wf(self)
        &&& self.shows_all(z, ss)
        &&& self.knows_all(z.quarters)
        &&& self.knows_colors(z.colors)
        &&& self.all_steady(z, b)
    }
}

/// What is steady takes that many reductions for each field.
pub proof fn lemma_all_within(h: Heap, z: ZoomView, ss: Seq<Scene>, b: nat)
    requires
        h.shows_all(z, ss),
        h.all_steady(z, b),
    ensures
        h.shows_all_within(z, ss, b),
{
    reveal(Heap::all_steady);
    reveal(Term::is_steady);
}

/// Work on the arena leaves a place steady.
proof fn lemma_all_steady(h: Heap, h1: Heap, z: ZoomView, b: nat)
    requires
        h.leads_to(h1),
        h.all_steady(z, b),
    ensures
        h1.all_steady(z, b),
{
    reveal(Heap::all_steady);
    crate::scene::lemma_steady_still(h, h1, z.tl, b);
    crate::scene::lemma_steady_still(h, h1, z.tr, b);
    crate::scene::lemma_steady_still(h, h1, z.bl, b);
    crate::scene::lemma_steady_still(h, h1, z.br, b);
    assert forall|i: int| 0 <= i < z.quarters.len() implies h1.is_steady_known(
        #[trigger] z.quarters[i],
        b,
    ) by {
        let k = z.quarters[i];
        assert(h.is_steady_known(z.quarters[i], b));
        crate::scene::lemma_steady_still(h, h1, k.tl, b);
        crate::scene::lemma_steady_still(h, h1, k.tr, b);
        crate::scene::lemma_steady_still(h, h1, k.bl, b);
        crate::scene::lemma_steady_still(h, h1, k.br, b);
    }
}

/// The quarters of a steady scene are given, and are steady.
proof fn lemma_get_steady(h: Heap, z: ZoomView, parent: u32, fuel: nat, s: Scene, b: nat)
    requires
        h.wf(),
        z.wf(h),
        h.are_sels(z.sels),
        h.all_steady(z, b),
        h.shows(parent, s),
        h.term(parent).is_steady(b),
        s is Split,
        fuel > b,
        h.room() >= 4 + 12 * b,
    ensures
        h.get_quarters(z, parent, fuel) matches Ok((h1, (k, z1))) && h1.is_steady_known(k, b)
            && h1.all_steady(z1, b) && h1.room() + 4 + 12 * b >= h.room(),
{
    reveal(Heap::get_quarters);
    let p = h.follow(parent);
    crate::graph::lemma_follow(h.graph, parent, h.graph.ranking());
    assert(h.live(p));
    assert(h.shows(p, s));
    crate::table::lemma_first(z.quarters, p);
    match crate::table::first_with(z.quarters, p) {
        Some(k) => {
            reveal(Heap::all_steady);
            let i = choose|i: int| 0 <= i < z.quarters.len() && z.quarters[i] == k;
            assert(h.is_steady_known(z.quarters[i], b));
        },
        None => {
            let t = h.term(p);
            assert(t.has_fields(b)) by {
                reveal(Term::is_steady);
                crate::scene::lemma_within(t, s, b);
            }
            crate::scene::lemma_eval_quarters(h, z.sels, p, fuel, b);
            crate::scene::lemma_eval_steady(h, z.sels, p, fuel, s, b);
            let (h1, k) = h.eval_quarters(z.sels, p, fuel)->Ok_0;
            lemma_all_steady(h, h1, z, b);
            let z1 = ZoomView { quarters: z.quarters.push(k), ..z };
            assert(h1.all_steady(z1, b)) by {
                reveal(Heap::all_steady);
                assert forall|i: int| 0 <= i < z1.quarters.len() implies h1.is_steady_known(
                    #[trigger] z1.quarters[i],
                    b,
                ) by {
                    if i < z.quarters.len() {
                        assert(z1.quarters[i] == z.quarters[i]);
                        assert(h1.is_steady_known(z.quarters[i], b));
                    }
                }
            }
        },
    }
}

/// A collection leaves a place steady.
proof fn lemma_gc_steady(h: Heap, z: ZoomView, b: nat)
    requires
        h.wf(),
        z.wf(h),
        h.all_steady(z, b),
    ensures
        h.maybe_gc(z).0.all_steady(h.maybe_gc(z).1, b),
{
    reveal(Heap::all_steady);
    if h.is_low(z) {
        crate::zoom::lemma_needed(z, h);
        assert(crate::zoom::color_nodes(z.forget().colors) =~= Seq::empty());
        crate::zoom::lemma_needed_live(z.forget(), h);
        crate::scene::lemma_nodes_gc(h, z.forget());
    }
}

/// A step to the center of what is steady succeeds where fuel and room allow,
/// and leads to what is as steady: to draw it takes no more.
#[verifier::spinoff_prover]
#[verifier::rlimit(40)]
proof fn lemma_zoom_steady(h: Heap, z: ZoomView, ss: Seq<Scene>, b: nat)
    requires
        h.wf(),
        z.wf(h),
        h.shows_all(z, ss),
        h.knows_all(z.quarters),
        h.all_steady(z, b),
        forall|q: int| 0 <= q < 4 ==> (#[trigger] ss[q]) is Split,
        b < 120_000_000,
        h.room() >= 16 + 48 * b,
    ensures
        h.zoom_in(z) matches Ok((h1, (z1, _))) && h1.wf() && h1.shows_all(z1, crate::scene::center(ss))
            && h1.knows_all(z1.quarters) && h1.all_steady(z1, b) && h1.room() + 16 + 48 * b
            >= h.room(),
{
    let fuel = crate::zoom::CHILD_FUEL as nat;
    assert(ss[0] is Split && ss[1] is Split && ss[2] is Split && ss[3] is Split);
    crate::scene::lemma_zoom_in(h, z, ss, b);
    crate::scene::lemma_maybe_gc(h, z, ss, b);
    lemma_gc_steady(h, z, b);
    let (h1, z1) = h.maybe_gc(z);
    crate::scene::lemma_get_quarters(h1, z1, z1.tl, fuel, ss[0], b);
    assert(h1.term(z1.tl).is_steady(b)) by {
        reveal(Heap::all_steady);
    }
    lemma_get_steady(h1, z1, z1.tl, fuel, ss[0], b);
    let (h2, (k1, z2)) = h1.get_quarters(z1, z1.tl, fuel)->Ok_0;
    crate::scene::lemma_shows_still(h1, h2, z2, ss);
    let tl = k1.br;
    crate::zoom::lemma_also(z2, h2, tl);
    let z2k = z2.also(tl);
    assert(h2.all_steady(z2k, b)) by {
        reveal(Heap::all_steady);
    }
    crate::scene::lemma_maybe_gc(h2, z2k, ss, b);
    lemma_gc_steady(h2, z2k, b);
    let (h3, z3) = h2.maybe_gc(z2k);
    assert(h3.live(tl) && h3.term(tl) == h2.term(tl)) by {
        if h2.is_low(z2k) {
            let zf = z2k.forget();
            crate::zoom::lemma_needed(z2k, h2);
            assert(crate::zoom::color_nodes(zf.colors) =~= Seq::empty());
            crate::zoom::lemma_needed_live(zf, h2);
            crate::zoom::lemma_gc_zoom(zf, h2);
            let n = zf.needed();
            let last = n.len() - 1;
            assert(n[last] == tl);
            assert(h3.term(n[last]) == h2.term(n[last]));
            assert(h3.live(n[last]));
        }
    }
    crate::scene::lemma_get_quarters(h3, z3, z3.tr, fuel, ss[1], b);
    assert(h3.term(z3.tr).is_steady(b)) by {
        reveal(Heap::all_steady);
    }
    lemma_get_steady(h3, z3, z3.tr, fuel, ss[1], b);
    let (h4, (k2, z4)) = h3.get_quarters(z3, z3.tr, fuel)->Ok_0;
    crate::scene::lemma_shows_still(h3, h4, z4, ss);
    crate::scene::lemma_get_quarters(h4, z4, z4.bl, fuel, ss[2], b);
    assert(h4.term(z4.bl).is_steady(b)) by {
        reveal(Heap::all_steady);
    }
    lemma_get_steady(h4, z4, z4.bl, fuel, ss[2], b);
    let (h5, (k3, z5)) = h4.get_quarters(z4, z4.bl, fuel)->Ok_0;
    crate::scene::lemma_shows_still(h4, h5, z5, ss);
    crate::scene::lemma_get_quarters(h5, z5, z5.br, fuel, ss[3], b);
    assert(h5.term(z5.br).is_steady(b)) by {
        reveal(Heap::all_steady);
    }
    lemma_get_steady(h5, z5, z5.br, fuel, ss[3], b);
    let (h6, (k4, z6)) = h5.get_quarters(z5, z5.br, fuel)->Ok_0;
    crate::scene::lemma_steady_still(h3, h6, tl, b);
    crate::scene::lemma_steady_still(h4, h6, k2.bl, b);
    crate::scene::lemma_steady_still(h5, h6, k3.tr, b);
    let (h7, (z7, _)) = h.zoom_in(z)->Ok_0;
    assert(h7 == h6 && z7 == (ZoomView {
        tl,
        tr: k2.bl,
        bl: k3.tr,
        br: k4.tl,
        keep: z6.keep.drop_last(),
        ..z6
    }));
    assert(h7.all_steady(z7, b)) by {
        reveal(Heap::all_steady);
    }
}

/// The way into a steady scene begins, where fuel and room allow, at a place that
/// looks at its quarters.
pub proof fn lemma_start_views(h: Heap, data: u32, keep: Seq<u32>, limit: nat, s: Scene, b: nat)
    requires
        h.wf(),
        h.shows(data, s),
        h.term(data).is_steady(b),
        s is Split,
        h.all_live(keep),
        b < 120_000_000,
        h.room() >= 51 + 48 * b,
    ensures
        h.zoom_start(data, keep, limit) matches Ok((h1, z)) && h1.views(
            z,
            seq![s.quarter(0), s.quarter(1), s.quarter(2), s.quarter(3)],
            b,
        ),
{
    let fuel = crate::zoom::CHILD_FUEL as nat;
    assert(h.term(data).has_fields(b)) by {
        reveal(Term::is_steady);
        crate::scene::lemma_within(h.term(data), s, b);
    }
    crate::scene::lemma_zoom_start(h, data, keep, limit, s, b);
    crate::scene::lemma_all_sels(h, 0, Seq::empty());
    let (h0, sels) = h.all_sels(0, Seq::empty())->Ok_0;
    let z = ZoomView {
        sels,
        tl: data,
        tr: data,
        bl: data,
        br: data,
        quarters: Seq::empty(),
        colors: Seq::empty(),
        keep,
        limit,
    };
    crate::scene::lemma_show_still(h, h0, data, s);
    crate::scene::lemma_steady_still(h, h0, data, b);
    assert forall|k: int| 0 <= k < keep.len() implies h0.live(#[trigger] keep[k]) by {
        assert(h.live(keep[k]));
    }
    assert forall|k: int| 0 <= k < 5 implies h0.live(#[trigger] sels[k]) by {}
    assert(crate::zoom::color_nodes(z.colors) =~= Seq::empty());
    crate::zoom::lemma_needed_live(z, h0);
    crate::scene::lemma_knows_none(h0);
    assert(h0.all_steady(z, b)) by {
        reveal(Heap::all_steady);
    }
    crate::scene::lemma_get_quarters(h0, z, data, fuel, s, b);
    lemma_get_steady(h0, z, data, fuel, s, b);
    let (h1, (k1, z1)) = h0.get_quarters(z, data, fuel)->Ok_0;
    crate::scene::lemma_sels_still(h0, h1, sels);
    crate::scene::lemma_show_still(h0, h1, data, s);
    crate::scene::lemma_steady_still(h0, h1, data, b);
    crate::scene::lemma_get_quarters(h1, z1, data, fuel, s, b);
    lemma_get_steady(h1, z1, data, fuel, s, b);
    let (h2, (k2, z2)) = h1.get_quarters(z1, data, fuel)->Ok_0;
    crate::scene::lemma_sels_still(h1, h2, sels);
    crate::scene::lemma_show_still(h1, h2, data, s);
    crate::scene::lemma_steady_still(h1, h2, data, b);
    crate::scene::lemma_get_quarters(h2, z2, data, fuel, s, b);
    lemma_get_steady(h2, z2, data, fuel, s, b);
    let (h3, (k3, z3)) = h2.get_quarters(z2, data, fuel)->Ok_0;
    crate::scene::lemma_sels_still(h2, h3, sels);
    crate::scene::lemma_show_still(h2, h3, data, s);
    crate::scene::lemma_steady_still(h2, h3, data, b);
    crate::scene::lemma_get_quarters(h3, z3, data, fuel, s, b);
    lemma_get_steady(h3, z3, data, fuel, s, b);
    let (h4, (k4, z4)) = h3.get_quarters(z3, data, fuel)->Ok_0;
    crate::scene::lemma_steady_still(h1, h4, k1.tl, b);
    crate::scene::lemma_steady_still(h2, h4, k2.tr, b);
    crate::scene::lemma_steady_still(h3, h4, k3.bl, b);
    let (h5, z5) = h.zoom_start(data, keep, limit)->Ok_0;
    assert(h5 == h4 && z5.tl == k1.tl && z5.tr == k2.tr && z5.bl == k3.bl && z5.br == k4.br
        && z5.quarters == z4.quarters && z5.colors == z.colors);
    crate::zoom::lemma_needed(z4, h4);
    crate::zoom::lemma_needed_live(z5, h5);
    assert(h5.knows_colors(z5.colors)) by {
        reveal(Heap::knows_colors);
    }
    assert(h5.all_steady(z5, b)) by {
        reveal(Heap::all_steady);
    }
}

/// Evaluation and allocation change nothing of what a place looks at.
pub proof fn lemma_views_still(h: Heap, h1: Heap, z: ZoomView, ss: Seq<Scene>, b: nat)
    requires
        h.leads_to(h1),
        h.views(z, ss, b),
    ensures
        h1.views(z, ss, b),
{
    crate::zoom::lemma_zoom_leads(z, h, h1);
    crate::scene::lemma_shows_still(h, h1, z, ss);
    crate::scene::lemma_knows_still(h, h1, z.quarters);
    crate::scene::lemma_colors_still(h, h1, z.colors);
    lemma_all_steady(h, h1, z, b);
}

/// A collection changes nothing of what a place looks at.
pub proof fn lemma_views_gc(h: Heap, z: ZoomView, ss: Seq<Scene>, b: nat)
    requires
        h.views(z, ss, b),
    ensures
        h.gc_zoom(z).views(z, ss, b),
        h.gc_zoom(z).room() >= h.room(),
{
    let h1 = h.gc_zoom(z);
    crate::scene::lemma_nodes_gc(h, z);
    crate::zoom::lemma_gc_known(z, h);
    assert(h1.knows_all(z.quarters)) by {
        reveal(Heap::knows_all);
        assert forall|i: int| 0 <= i < z.quarters.len() implies h1.is_known(
            #[trigger] z.quarters[i],
        ) by {
            let k = z.quarters[i];
            assert(h.is_known(z.quarters[i]));
            let t = choose|t: Term| #[trigger] h.knows_by(k, t);
            assert(h1.knows_by(k, t));
        }
    }
    assert(h1.knows_colors(z.colors)) by {
        reveal(Heap::knows_colors);
        assert forall|i: int| 0 <= i < z.colors.len() implies h1.is_true_color(
            #[trigger] z.colors[i],
        ) by {
            assert(h.is_true_color(z.colors[i]));
        }
    }
    assert(h1.all_steady(z, b)) by {
        reveal(Heap::all_steady);
        assert forall|i: int| 0 <= i < z.quarters.len() implies h1.is_steady_known(
            #[trigger] z.quarters[i],
            b,
        ) by {
            assert(h.is_steady_known(z.quarters[i], b));
        }
    }
}

/// To forget what is known, and to collect what is not needed then, changes
/// nothing of what a place looks at.
pub proof fn lemma_views_forget(h: Heap, z: ZoomView, ss: Seq<Scene>, b: nat)
    requires
        h.views(z, ss, b),
    ensures
        h.gc_zoom(z.forget()).views(z.forget(), ss, b),
        h.gc_zoom(z.forget()).room() >= h.room(),
        h.maybe_gc(z).0.views(h.maybe_gc(z).1, ss, b),
        h.maybe_gc(z).0.room() >= h.room(),
{
    let z1 = z.forget();
    crate::zoom::lemma_needed(z, h);
    assert(crate::zoom::color_nodes(z1.colors) =~= Seq::empty());
    crate::zoom::lemma_needed_live(z1, h);
    crate::scene::lemma_knows_none(h);
    assert(h.knows_colors(z1.colors)) by {
        reveal(Heap::knows_colors);
    }
    assert(h.all_steady(z1, b)) by {
        reveal(Heap::all_steady);
    }
    lemma_views_gc(h, z1, ss, b);
}

/// A step to the center leads to a place that looks at the scenes that lie
/// there.
pub proof fn lemma_zoom_views(h: Heap, z: ZoomView, ss: Seq<Scene>, b: nat)
    requires
        h.views(z, ss, b),
        forall|q: int| 0 <= q < 4 ==> (#[trigger] ss[q]) is Split,
        b < 120_000_000,
        h.room() >= 16 + 48 * b,
    ensures
        h.zoom_in(z) matches Ok((h1, (z1, _))) && h1.views(z1, crate::scene::center(ss), b)
            && h1.room() + 16 + 48 * b >= h.room(),
{
    let fuel = crate::zoom::CHILD_FUEL as nat;
    assert(ss[0] is Split && ss[1] is Split && ss[2] is Split && ss[3] is Split);
    lemma_zoom_steady(h, z, ss, b);
    lemma_views_forget(h, z, ss, b);
    let (h1, z1) = h.maybe_gc(z);
    lemma_get_views(h1, z1, z1.tl, ss[0], ss, b);
    let (h2, (k1, z2)) = h1.get_quarters(z1, z1.tl, fuel)->Ok_0;
    let tl = k1.br;
    crate::zoom::lemma_also(z2, h2, tl);
    let z2k = z2.also(tl);
    assert(h2.all_steady(z2k, b)) by {
        reveal(Heap::all_steady);
    }
    lemma_views_forget(h2, z2k, ss, b);
    let (h3, z3) = h2.maybe_gc(z2k);
    lemma_get_views(h3, z3, z3.tr, ss[1], ss, b);
    let (h4, (k2, z4)) = h3.get_quarters(z3, z3.tr, fuel)->Ok_0;
    lemma_get_views(h4, z4, z4.bl, ss[2], ss, b);
    let (h5, (k3, z5)) = h4.get_quarters(z4, z4.bl, fuel)->Ok_0;
    lemma_get_views(h5, z5, z5.br, ss[3], ss, b);
    let (h6, (k4, z6)) = h5.get_quarters(z5, z5.br, fuel)->Ok_0;
    let (h7, (z7, _)) = h.zoom_in(z)->Ok_0;
    assert(h7 == h6 && z7.sels == z6.sels && z7.quarters == z6.quarters && z7.colors == z6.colors
        && z7.keep == z6.keep.drop_last());
    crate::zoom::lemma_needed(z6, h6);
    assert forall|k: int| 0 <= k < z7.keep.len() implies h6.live(#[trigger] z7.keep[k]) by {
        assert(z7.keep[k] == z6.keep[k]);
    }
    crate::zoom::lemma_needed_live(z7, h7);
}

/// A place looks at the same after the quarters of a node were asked for.
proof fn lemma_get_views(
    h: Heap,
    z: ZoomView,
    node: u32,
    s: Scene,
    ss: Seq<Scene>,
    b: nat,
)
    requires
        h.views(z, ss, b),
        h.shows(node, s),
        s is Split,
        node == z.tl || node == z.tr || node == z.bl || node == z.br,
        b < 120_000_000,
        h.room() >= 4 + 12 * b,
    ensures
        h.get_quarters(z, node, crate::zoom::CHILD_FUEL as nat) matches Ok((h1, (k, z1))) && {
            &&& h1.views(z1, ss, b)
            &&& h1.room() + 4 + 12 * b >= h.room()
            &&& z1 == (ZoomView { quarters: z1.quarters, ..z })
            &&& h1.live2(k.tl, k.tr) && h1.live2(k.bl, k.br)
        },
{
    let fuel = crate::zoom::CHILD_FUEL as nat;
    assert(h.term(node).is_steady(b)) by {
        reveal(Heap::all_steady);
    }
    crate::scene::lemma_get_quarters(h, z, node, fuel, s, b);
    lemma_get_steady(h, z, node, fuel, s, b);
    let (h1, (k, z1)) = h.get_quarters(z, node, fuel)->Ok_0;
    crate::scene::lemma_shows_still(h, h1, z, ss);
    crate::scene::lemma_colors_still(h, h1, z.colors);
}

/// To draw a place gives the pixels of its scenes, and changes nothing of what
/// it looks at.
pub proof fn lemma_draw_views(
    h: Heap,
    z: ZoomView,
    size: nat,
    fuel: nat,
    min_free: nat,
    ss: Seq<Scene>,
    b: nat,
)
    requires
        h.views(z, ss, b),
        forall|q: int|
            0 <= q < 4 ==> (#[trigger] ss[q]).deep(crate::shared::floor_log2(size / 2)),
        fuel > b,
        h.room() >= size * (size * crate::scene::pixel_room(size, b)),
    ensures
        h.shared_rows(z, 0, size, fuel, min_free, Seq::empty(), Seq::empty()) matches Ok(
            (h1, (p, _)),
        ) && p == crate::scene::scene_pixels(ss, size) && h1.views(z, ss, b) && h1.room() + size * (
        size * crate::scene::pixel_room(size, b)) >= h.room(),
{
    lemma_all_within(h, z, ss, b);
    crate::scene::lemma_render_shared(h, z, size, fuel, min_free, ss, b);
    lemma_rows_views(h, z, 0, size, fuel, min_free, Seq::empty(), Seq::empty(), ss, b);
}

/// Drawing rows changes nothing of what a place looks at.
proof fn lemma_rows_views(
    h: Heap,
    z: ZoomView,
    row: nat,
    size: nat,
    fuel: nat,
    min_free: nat,
    pixels: Seq<u8>,
    rows: Seq<crate::shared::RowReport>,
    ss: Seq<Scene>,
    b: nat,
)
    requires
        h.views(z, ss, b),
        forall|q: int|
            0 <= q < 4 ==> (#[trigger] ss[q]).deep(crate::shared::floor_log2(size / 2)),
        fuel > b,
        row <= size,
        h.room() >= (size - row) * (size * crate::scene::pixel_room(size, b)),
    ensures
        h.shared_rows(z, row, size, fuel, min_free, pixels, rows) matches Ok((h1, _)) && h1.views(
            z,
            ss,
            b,
        ) && h1.room() + (size - row) * (size * crate::scene::pixel_room(size, b)) >= h.room(),
    decreases size - row,
{
    let cost = crate::scene::pixel_room(size, b);
    let row_cost = size * cost;
    if row >= size {
        assert(0 * row_cost == 0) by (nonlinear_arith);
    } else {
        assert((size - row) * row_cost == (size - (row + 1)) * row_cost + row_cost)
            by (nonlinear_arith);
        assert((size - (row + 1)) * row_cost >= 0) by (nonlinear_arith)
            requires
                size - (row + 1) >= 0,
                row_cost >= 0,
        ;
        assert((size - 0) * cost == row_cost);
        lemma_all_within(h, z, ss, b);
        crate::scene::lemma_shared_row(h, z, row, 0, size, fuel, pixels, ss, b);
        let (h1, p) = h.shared_row(z, row, 0, size, fuel, pixels)->Ok_0;
        lemma_views_still(h, h1, z, ss, b);
        lemma_views_gc(h1, z, ss, b);
        let low = h1.graph.free.len() < min_free;
        let h2 = if low {
            h1.gc_zoom(z)
        } else {
            h1
        };
        let report = crate::shared::RowReport {
            nodes: h1.graph.nodes.len() as usize,
            free: h1.graph.free.len() as usize,
            gc: if low {
                Some(h2.report(h1))
            } else {
                None
            },
        };
        lemma_rows_views(h2, z, row + 1, size, fuel, min_free, p, rows.push(report), ss, b);
    }
}

/// The colors of the quarters are those of the scenes, and asking for them
/// changes nothing of what a place looks at.
pub proof fn lemma_probe_views(h: Heap, z: ZoomView, ss: Seq<Scene>, b: nat)
    requires
        h.views(z, ss, b),
        b < 5_000_000,
        h.room() >= 20 + 24 * b,
    ensures
        h.probe_all(z, seq![z.tl, z.tr, z.bl, z.br], Seq::empty(), Seq::empty()) matches Ok(
            (h1, (z1, colors, _)),
        ) && colors == seq![
            Some(ss[0].color()),
            Some(ss[1].color()),
            Some(ss[2].color()),
            Some(ss[3].color()),
        ] && h1.views(z1, ss, b),
{
    reveal_with_fuel(Heap::probe_all, 5);
    let nodes = seq![z.tl, z.tr, z.bl, z.br];
    lemma_probe(h, z, 0, ss, b);
    let (h1, (c0, z1)) = h.probe(z, z.root(0))->Ok_0;
    assert(z1.root(1) == z.root(1) && z1.root(2) == z.root(2) && z1.root(3) == z.root(3));
    lemma_probe(h1, z1, 1, ss, b);
    let (h2, (c1, z2)) = h1.probe(z1, z1.root(1))->Ok_0;
    assert(z2.root(2) == z.root(2) && z2.root(3) == z.root(3));
    lemma_probe(h2, z2, 2, ss, b);
    let (h3, (c2, z3)) = h2.probe(z2, z2.root(2))->Ok_0;
    assert(z3.root(3) == z.root(3));
    lemma_probe(h3, z3, 3, ss, b);
    assert(nodes.skip(1) =~= seq![z.tr, z.bl, z.br]);
    assert(nodes.skip(1).skip(1) =~= seq![z.bl, z.br]);
    assert(nodes.skip(1).skip(1).skip(1) =~= seq![z.br]);
    assert(nodes.skip(1).skip(1).skip(1).skip(1) =~= Seq::empty());
    assert(Seq::empty().push(c0) =~= seq![c0]);
}

/// The color of a quarter is the color of its scene, after a collection or not.
proof fn lemma_probe(h: Heap, z: ZoomView, q: nat, ss: Seq<Scene>, b: nat)
    requires
        h.views(z, ss, b),
        q < 4,
        b < 5_000_000,
        h.room() >= 5 + 6 * b,
    ensures
        h.probe(z, z.root(q)) matches Ok((h1, (c, z1))) && {
            &&& c == Some(ss[q as int].color())
            &&& h1.views(z1, ss, b)
            &&& h1.room() + 5 + 6 * b >= h.room()
            &&& forall|k: nat| k < 4 ==> #[trigger] z1.root(k) == z.root(k)
        },
{
    let fuel = crate::zoom::PROBE_FUEL as nat;
    lemma_views_forget(h, z, ss, b);
    let (h1, z1) = h.maybe_gc(z);
    lemma_all_within(h1, z1, ss, b);
    crate::scene::lemma_get_color(h1, z1, z.root(q), fuel, ss[q as int], b);
    let (h2, (_, z2)) = h1.get_color(z1, z.root(q), fuel)->Ok_0;
    lemma_views_still(h1, h2, z1, ss, b);
    assert(h2.all_steady(z2, b)) by {
        reveal(Heap::all_steady);
    }
}

/// The quarter of a node by its number, from one on, stands for that quarter of its
/// scene.
pub proof fn lemma_child(h: Heap, z: ZoomView, parent: u32, fuel: nat, s: Scene, idx: nat)
    requires
        h.wf(),
        z.wf(h),
        h.are_sels(z.sels),
        h.knows_all(z.quarters),
        h.shows(parent, s),
        s is Split,
        1 <= idx <= 4,
    ensures
        h.get_quarters(z, parent, fuel) matches Ok((h1, (k, _))) ==> h1.shows(
            k.child(idx as int),
            s.quarter((idx - 1) as nat),
        ),
{
    crate::scene::lemma_get_quarters(h, z, parent, fuel, s, 0);
}

/// The number of nodes that should be free is a third of those that may still
/// come, but five million at least and sixty million at most.
pub proof fn lemma_min_free(len: nat, limit: nat)
    ensures
        5_000_000 <= crate::zoom::min_free(len, limit) <= 60_000_000,
        limit >= len && 15_000_000 <= limit - len < 180_000_003 ==> 3 * crate::zoom::min_free(
            len,
            limit,
        ) <= limit - len < 3 * crate::zoom::min_free(len, limit) + 3,
        limit < len + 15_000_000 ==> crate::zoom::min_free(len, limit) == 5_000_000,
        limit >= len + 180_000_000 ==> crate::zoom::min_free(len, limit) == 60_000_000,
{
}

/// Below five million free nodes everything that is not needed is collected, and
/// what was known of nodes is forgotten; above sixty million, nothing is done.
/// Nothing else about the place changes, and what it needs stays what it was.
pub proof fn lemma_maybe_gc(h: Heap, z: ZoomView)
    requires
        h.wf(),
        z.wf(h),
    ensures
        ({
            let (h1, z1) = h.maybe_gc(z);
            &&& h1.wf() && z1.wf(h1)
            &&& h.graph.free.len() >= 60_000_000 ==> h1 == h && z1 == z && h.gc_report(z) is None
            &&& h.graph.free.len() < 5_000_000 ==> h1 == h.gc(z1.needed()) && z1.quarters.len() == 0
                && z1.colors.len() == 0 && h.gc_report(z) is Some
            &&& h.gc_report(z) is None ==> h1 == h && z1 == z
            &&& h.gc_report(z) matches Some(r) ==> r.total == h.graph.nodes.len() && r.freed
                == h1.graph.free.len() && r.live + r.freed == r.total
            &&& (z1.sels, z1.tl, z1.tr, z1.bl, z1.br) == (z.sels, z.tl, z.tr, z.bl, z.br)
            &&& z1.keep == z.keep && z1.limit == z.limit
            &&& forall|k: int|
                0 <= k < z1.needed().len() ==> h1.term(#[trigger] z1.needed()[k]) == h.term(
                    z1.needed()[k],
                )
        }),
{
    crate::zoom::lemma_needed(z, h);
    assert(crate::zoom::color_nodes(z.forget().colors) =~= Seq::empty());
    crate::zoom::lemma_needed_live(z.forget(), h);
    crate::zoom::lemma_gc_zoom(z.forget(), h);
    lemma_report(h, z.forget());
}

/// A step to the center reports first whether it began with a collection. What else
/// is kept stays, and so do the limit and the selectors.
pub proof fn lemma_step_report(h: Heap, z: ZoomView)
    requires
        h.wf(),
        z.wf(h),
    ensures
        h.zoom_in(z) matches Ok((_, (z1, r))) ==> {
            &&& r.before == h.gc_report(z)
            &&& h.graph.free.len() < 5_000_000 ==> (r.before matches Some(g) && g.total
                == h.graph.nodes.len() && g.live + g.freed == g.total)
            &&& h.graph.free.len() >= 60_000_000 ==> r.before is None
            &&& z1.keep == z.keep && z1.limit == z.limit && z1.sels == z.sels
        },
{
    reveal(Heap::get_quarters);
    lemma_maybe_gc(h, z);
    if let Ok((_, (z1, r))) = h.zoom_in(z) {
        let (h1, y1) = h.maybe_gc(z);
        let (h2, (tl, y2)) = h1.get_quarters(y1, y1.tl, crate::zoom::CHILD_FUEL as nat)->Ok_0;
        let y3 = h2.maybe_gc(y2.also(tl.br)).1;
        assert(y3.keep == z.keep.push(tl.br));
        assert(z1.keep =~= z.keep);
    }
}

/// Evaluating a field leaves the arena well formed.
proof fn lemma_field_leads(h: Heap, node: u32, sel: u32, fuel: nat)
    requires
        h.wf(),
        h.live(node),
        h.live(sel),
    ensures
        h.field(node, sel, fuel) matches Ok((h1, (r, f))) ==> h.leads_to(h1) && h1.live(r) && f
            <= fuel,
{
    crate::select::lemma_apply(h, node, sel);
    if let Ok((h1, app)) = h.apply(node, sel) {
        crate::select::lemma_eval(h1, app, fuel);
    }
}

/// Going down leaves the arena well formed. Without fuel it ends nowhere, unless
/// there is no level to go down.
proof fn lemma_descend_leads(
    h: Heap,
    z: ZoomView,
    node: u32,
    row: nat,
    col: nat,
    size: nat,
    levels: nat,
    fuel: nat,
)
    requires
        h.wf(),
        z.wf(h),
        h.live(node),
    ensures
        h.descend(z.sels, node, row, col, size, levels, fuel) matches Ok((h1, r)) ==> h.leads_to(h1)
            && (r matches Some(n) ==> h1.live(n) && (fuel > 0 || levels == 0)),
    decreases levels,
{
    crate::heap::lemma_leads_refl(h);
    if levels > 0 {
        let half = size / 2;
        let sel = z.sels[(1 + crate::shared::quarter_of(row, col, half)) as int];
        crate::zoom::lemma_needed(z, h);
        assert(h.live(sel));
        lemma_field_leads(h, node, sel, fuel);
        if let Ok((h1, (child, f))) = h.field(node, sel, fuel) {
            crate::zoom::lemma_zoom_leads(z, h, h1);
            lemma_descend_leads(
                h1,
                z,
                child,
                crate::shared::within_half(row, half),
                crate::shared::within_half(col, half),
                half,
                (levels - 1) as nat,
                fuel,
            );
        }
    }
}

/// Drawing a pixel leaves the arena well formed. Without fuel it is gray.
pub proof fn lemma_pixel_leads(
    h: Heap,
    z: ZoomView,
    row: nat,
    col: nat,
    size: nat,
    fuel: nat,
)
    requires
        h.wf(),
        z.wf(h),
    ensures
        h.shared_pixel(z, row, col, size, fuel) matches Ok((h1, p)) ==> h.leads_to(h1) && (fuel == 0
            ==> p == 128),
{
    reveal(Heap::shared_pixel);
    let half = size / 2;
    let root = z.root(crate::shared::quarter_of(row, col, half));
    let r1 = crate::shared::within_half(row, half);
    let c1 = crate::shared::within_half(col, half);
    let levels = crate::shared::floor_log2(half);
    crate::zoom::lemma_needed(z, h);
    assert(h.live(root));
    lemma_descend_leads(h, z, root, r1, c1, half, levels, fuel);
    if let Ok((h1, Some(node))) = h.descend(z.sels, root, r1, c1, half, levels, fuel) {
        assert(h1.live(z.sels[0]));
        lemma_field_leads(h1, node, z.sels[0], fuel);
        if let Ok((h2, (cond, f))) = h1.field(node, z.sels[0], fuel) {
            crate::select::lemma_decode_bool(h2, cond, fuel);
        }
    }
}

/// Drawing a row leaves the arena well formed.
proof fn lemma_row_leads(
    h: Heap,
    z: ZoomView,
    row: nat,
    col: nat,
    size: nat,
    fuel: nat,
    pixels: Seq<u8>,
)
    requires
        h.wf(),
        z.wf(h),
    ensures
        h.shared_row(z, row, col, size, fuel, pixels) matches Ok((h1, p)) ==> h.leads_to(h1),
    decreases size - col,
{
    crate::heap::lemma_leads_refl(h);
    if col < size {
        lemma_pixel_leads(h, z, row, col, size, fuel);
        if let Ok((h1, p)) = h.shared_pixel(z, row, col, size, fuel) {
            crate::zoom::lemma_zoom_leads(z, h, h1);
            lemma_row_leads(h1, z, row, col + 1, size, fuel, pixels.push(p));
        }
    }
}

/// What is reported of a row: a collection exactly where too few nodes were free.
pub open spec fn reports_gc(r: crate::shared::RowReport, min_free: nat) -> bool {
    &&& r.gc is Some <==> (r.free as int) < min_free
    &&& r.gc matches Some(g) ==> g.total == r.nodes
}

/// No more nodes are free than there are.
proof fn lemma_free_fits(h: Heap)
    requires
        h.wf(),
    ensures
        h.graph.free.len() <= h.graph.nodes.len(),
{
    let free = h.graph.free;
    let n = h.graph.nodes.len() as int;
    let s = Seq::new(free.len(), |k: int| free[k] as int);
    assert(s.no_duplicates());
    s.unique_seq_to_set();
    let all = vstd::set_lib::set_int_range(0, n);
    vstd::set_lib::lemma_int_range(0, n);
    assert forall|i: int| s.to_set().contains(i) implies all.contains(i) by {
        let k = choose|k: int| 0 <= k < s.len() && s[k] == i;
        assert(free.contains(free[k]));
    }
    vstd::set_lib::lemma_len_subset(s.to_set(), all);
}

proof fn lemma_rows_reported(
    h: Heap,
    z: ZoomView,
    row: nat,
    size: nat,
    fuel: nat,
    min_free: nat,
    pixels: Seq<u8>,
    rows: Seq<crate::shared::RowReport>,
)
    requires
        h.wf(),
        z.wf(h),
        row <= size,
        forall|k: int| 0 <= k < rows.len() ==> reports_gc(#[trigger] rows[k], min_free),
    ensures
        h.shared_rows(z, row, size, fuel, min_free, pixels, rows) matches Ok((h1, (p, rs))) ==> {
            &&& rs.len() == rows.len() + size - row
            &&& forall|k: int| 0 <= k < rs.len() ==> reports_gc(#[trigger] rs[k], min_free)
            &&& size > row ==> match rs.last().gc {
                None => rs.last().nodes == h1.graph.nodes.len() && rs.last().free
                    == h1.graph.free.len(),
                Some(g) => g.freed == h1.graph.free.len() && g.live + g.freed == g.total,
            }
        },
    decreases size - row,
{
    if row < size {
        lemma_row_leads(h, z, row, 0, size, fuel, pixels);
        if let Ok((h1, p)) = h.shared_row(z, row, 0, size, fuel, pixels) {
            let low = h1.graph.free.len() < min_free;
            let h2 = if low {
                h1.gc_zoom(z)
            } else {
                h1
            };
            crate::zoom::lemma_zoom_leads(z, h, h1);
            crate::zoom::lemma_gc_zoom(z, h1);
            lemma_report(h1, z);
            lemma_free_fits(h1);
            let report = crate::shared::RowReport {
                nodes: h1.graph.nodes.len() as usize,
                free: h1.graph.free.len() as usize,
                gc: if low {
                    Some(h2.report(h1))
                } else {
                    None
                },
            };
            lemma_rows_reported(h2, z, row + 1, size, fuel, min_free, p, rows.push(report));
        }
    }
}

/// One report comes for each row: after the row a collection is reported exactly
/// where fewer nodes than `min_free` were free.
pub proof fn lemma_rows(h: Heap, z: ZoomView, size: nat, fuel: nat, min_free: nat)
    requires
        h.wf(),
        z.wf(h),
    ensures
        h.shared_rows(z, 0, size, fuel, min_free, Seq::empty(), Seq::empty()) matches Ok(
            (h1, (p, rs)),
        ) ==> {
            &&& rs.len() == size
            &&& forall|k: int| 0 <= k < rs.len() ==> reports_gc(#[trigger] rs[k], min_free)
            &&& size > 0 ==> match rs.last().gc {
                None => rs.last().nodes == h1.graph.nodes.len() && rs.last().free
                    == h1.graph.free.len(),
                Some(g) => g.freed == h1.graph.free.len() && g.live + g.freed == g.total,
            }
        },
{
    lemma_rows_reported(h, z, 0, size, fuel, min_free, Seq::empty(), Seq::empty());
}

/// The way into an image: seven steps that are not drawn, then a collection, and
/// then the depths from nine to twenty-five, each of which is drawn.
pub proof fn lemma_visit(k: nat)
    ensures
        k < 7 ==> (crate::zoom::visit_of(k) matches crate::zoom::Visit::Unseen(n) && n == k + 1),
        k == 7 ==> crate::zoom::visit_of(k) is Clear,
        7 < k < 25 ==> (crate::zoom::visit_of(k) matches crate::zoom::Visit::Draw(d) && d == k + 1),
        k >= 25 ==> crate::zoom::visit_of(k) is Done,
{
}

/// What a collection reports: all nodes, those that it kept, and those that it
/// freed.
pub proof fn lemma_report(h: Heap, z: ZoomView)
    requires
        h.wf(),
        z.wf(h),
    ensures
        ({
            let h1 = h.gc_zoom(z);
            let r = h1.report(h);
            &&& r.total == h.graph.nodes.len()
            &&& r.freed == h1.graph.free.len()
            &&& r.live + r.freed == r.total
        }),
{
    crate::gc::lemma_garbage(h.graph, z.needed() + h.roots, h.graph.nodes.len());
}

} // verus!
