//! Zooming into an image that a program gives as a quadtree.
//!
//! A node of the tree is a function that hands five fields to its argument:
//! the color of the node, and its four quarters. The quarters are evaluated
//! on demand; what is no longer needed is collected on the way.

use vstd::prelude::*;
use crate::arena::Arena;
use crate::heap::{AllocError, Heap, Outcome};
use crate::node::APP;
use crate::select::decode_bool;
use crate::table::{Keyed, Table};

verus! {

broadcast use crate::heap::group_leads;

/// The result of a collection: the number of nodes, of live ones, of those
/// that were freed.
#[derive(Clone, Copy, PartialEq, Eq, Structural, Debug)]
pub struct GcReport {
    pub total: usize,
    pub live: usize,
    pub freed: usize,
}

/// The quarters of a node that were evaluated.
#[derive(Clone, Copy, PartialEq, Eq, Structural, Debug)]
pub struct KnownQuarters {
    pub parent: u32,
    pub tl: u32,
    pub tr: u32,
    pub bl: u32,
    pub br: u32,
}

/// The color of a node that was evaluated.
#[derive(Clone, Copy, PartialEq, Eq, Structural, Debug)]
pub struct KnownColor {
    pub node: u32,
    pub color: Option<bool>,
}

/// A place in a quadtree: the four quarters that are looked at, and what is
/// known about nodes.
pub struct Zoom {
    /// The selectors of the five fields.
    pub sels: Vec<u32>,
    pub tl: u32,
    pub tr: u32,
    pub bl: u32,
    pub br: u32,
    pub quarters: Table<KnownQuarters>,
    pub colors: Table<KnownColor>,
    /// Other nodes that are still needed.
    pub keep: Vec<u32>,
    /// The number of nodes that the arena is not to exceed.
    pub limit: usize,
}

/// A [`Zoom`] as a mathematical object.
#[verifier::ext_equal]
pub struct ZoomView {
    pub sels: Seq<u32>,
    pub tl: u32,
    pub tr: u32,
    pub bl: u32,
    pub br: u32,
    pub quarters: Seq<KnownQuarters>,
    pub colors: Seq<KnownColor>,
    pub keep: Seq<u32>,
    pub limit: nat,
}

impl View for Zoom {
    type V = ZoomView;

    open spec fn view(&self) -> ZoomView {
        ZoomView {
            sels: self.sels@,
            tl: self.tl,
            tr: self.tr,
            bl: self.bl,
            br: self.br,
            quarters: self.quarters@,
            colors: self.colors@,
            keep: self.keep@,
            limit: self.limit as nat,
        }
    }
}

/// The nodes of the known quarters.
pub open spec fn quarter_nodes(known: Seq<KnownQuarters>) -> Seq<u32>
    decreases known.len(),
{
    if known.len() == 0 {
        Seq::empty()
    } else {
        let k = known.last();
        quarter_nodes(known.drop_last()) + seq![k.parent, k.tl, k.tr, k.bl, k.br]
    }
}

/// The nodes of the known colors.
pub open spec fn color_nodes(known: Seq<KnownColor>) -> Seq<u32> {
    Seq::new(known.len(), |k: int| known[k].node)
}

impl KnownQuarters {
    /// The quarter with a number: top left, top right, bottom left, bottom
    /// right, from one.
    pub open spec fn child(self, idx: int) -> u32 {
        if idx == 1 {
            self.tl
        } else if idx == 2 {
            self.tr
        } else if idx == 3 {
            self.bl
        } else {
            self.br
        }
    }
}

/// How many nodes should be free: a third of those that the arena may still
/// grow by, but neither very few nor very many.
pub open spec fn min_free(len: nat, limit: nat) -> nat {
    let third = crate::decode::minus(limit, len) / 3;
    if third < 5_000_000 {
        5_000_000
    } else if third > 60_000_000 {
        60_000_000
    } else {
        third
    }
}

impl ZoomView {
    /// The nodes that a collection has to keep.
    pub open spec fn needed(self) -> Seq<u32> {
        self.sels + seq![self.tl, self.tr, self.bl, self.br] + quarter_nodes(self.quarters)
            + color_nodes(self.colors) + self.keep
    }

    /// There are five selectors, and everything is live.
    pub open spec fn wf(self, h: Heap) -> bool {
        &&& self.sels.len() == 5
        &&& h.all_live(self.needed())
    }

    /// Nothing is known any more.
    pub open spec fn forget(self) -> ZoomView {
        ZoomView { quarters: Seq::empty(), colors: Seq::empty(), ..self }
    }

    /// One node more is needed.
    pub open spec fn also(self, n: u32) -> ZoomView {
        ZoomView { keep: self.keep.push(n), ..self }
    }
}

impl Heap {
    /// Evaluates a field of a node.
    pub open spec fn field(self, node: u32, sel: u32, fuel: nat) -> Outcome<(u32, nat)> {
        match self.apply(node, sel) {
            Err(e) => Err(e),
            Ok((h, app)) => h.eval(app, fuel),
        }
    }

    /// Evaluates the four quarters of a node.
    pub open spec fn eval_quarters(self, sels: Seq<u32>, p: u32, fuel: nat) -> Outcome<
        KnownQuarters,
    > {
        match self.field(p, sels[1], fuel) {
            Err(e) => Err(e),
            Ok((h1, (tl, _))) => match h1.field(p, sels[2], fuel) {
                Err(e) => Err(e),
                Ok((h2, (tr, _))) => match h2.field(p, sels[3], fuel) {
                    Err(e) => Err(e),
                    Ok((h3, (bl, _))) => match h3.field(p, sels[4], fuel) {
                        Err(e) => Err(e),
                        Ok((h4, (br, _))) => Ok((h4, KnownQuarters { parent: p, tl, tr, bl, br })),
                    },
                },
            },
        }
    }

    /// The quarters of a node, evaluated unless they are known.
    #[verifier::opaque]
    pub open spec fn get_quarters(self, z: ZoomView, parent: u32, fuel: nat) -> Outcome<
        (KnownQuarters, ZoomView),
    > {
        let p = self.follow(parent);
        match crate::table::first_with(z.quarters, p) {
            Some(k) => Ok((self, (k, z))),
            None => match self.eval_quarters(z.sels, p, fuel) {
                Err(e) => Err(e),
                Ok((h, k)) => Ok((h, (k, ZoomView { quarters: z.quarters.push(k), ..z }))),
            },
        }
    }

    /// The color of a node, evaluated unless it is known.
    #[verifier::opaque]
    pub open spec fn get_color(self, z: ZoomView, node: u32, fuel: nat) -> Outcome<
        (Option<bool>, ZoomView),
    > {
        let n = self.follow(node);
        match crate::table::first_with(z.colors, n) {
            Some(k) => Ok((self, (k.color, z))),
            None => match self.field(n, z.sels[0], fuel) {
                Err(e) => Err(e),
                Ok((h1, (cond, _))) => match h1.decode_bool(cond, 5_000_000) {
                    Err(e) => Err(e),
                    Ok((h2, color)) => Ok(
                        (
                            h2,
                            (
                                color,
                                ZoomView {
                                    colors: z.colors.push(KnownColor { node: n, color }),
                                    ..z
                                },
                            ),
                        ),
                    ),
                },
            },
        }
    }

    /// The arena after a collection that keeps what is needed.
    pub open spec fn gc_zoom(self, z: ZoomView) -> Heap {
        self.gc(z.needed())
    }

    /// The node is live, and stands for what it stood for in `h`.
    pub open spec fn same(self, h: Heap, n: u32) -> bool {
        self.live(n) && self.term(n) == h.term(n)
    }

    /// Too few nodes are free.
    pub open spec fn is_low(self, z: ZoomView) -> bool {
        self.graph.free.len() < min_free(self.graph.nodes.len(), z.limit)
    }

    /// What a collection of `h` that led to `self` reports.
    pub open spec fn report(self, h: Heap) -> GcReport {
        GcReport {
            total: h.graph.nodes.len() as usize,
            live: (h.graph.nodes.len() - self.graph.free.len()) as usize,
            freed: self.graph.free.len() as usize,
        }
    }

    /// What is reported, if too few nodes are free.
    pub open spec fn gc_report(self, z: ZoomView) -> Option<GcReport> {
        if self.is_low(z) {
            Some(self.gc_zoom(z.forget()).report(self))
        } else {
            None
        }
    }

    /// Forgets what is known and collects, if too few nodes are free.
    pub open spec fn maybe_gc(self, z: ZoomView) -> (Heap, ZoomView) {
        if self.is_low(z) {
            (self.gc_zoom(z.forget()), z.forget())
        } else {
            (self, z)
        }
    }
}

impl Keyed for KnownQuarters {
    open spec fn key_of(self) -> u32 {
        self.parent
    }

    fn key(&self) -> (k: u32) {
        self.parent
    }
}

impl Keyed for KnownColor {
    open spec fn key_of(self) -> u32 {
        self.node
    }

    fn key(&self) -> (k: u32) {
        self.node
    }
}

/// The nodes of known quarters are among those that are needed.
proof fn lemma_quarter_nodes(known: Seq<KnownQuarters>, k: KnownQuarters)
    requires
        known.contains(k),
    ensures
        quarter_nodes(known).contains(k.parent),
        quarter_nodes(known).contains(k.tl),
        quarter_nodes(known).contains(k.tr),
        quarter_nodes(known).contains(k.bl),
        quarter_nodes(known).contains(k.br),
    decreases known.len(),
{
    let q = quarter_nodes(known.drop_last());
    let i = choose|i: int| 0 <= i < known.len() && known[i] == k;
    if i == known.len() - 1 {
        let n = q.len() as int;
        assert(quarter_nodes(known)[n] == k.parent);
        assert(quarter_nodes(known)[n + 1] == k.tl);
        assert(quarter_nodes(known)[n + 2] == k.tr);
        assert(quarter_nodes(known)[n + 3] == k.bl);
        assert(quarter_nodes(known)[n + 4] == k.br);
    } else {
        assert(known.drop_last()[i] == k);
        lemma_quarter_nodes(known.drop_last(), k);
        assert forall|n: u32| q.contains(n) implies quarter_nodes(known).contains(n) by {
            let j = choose|j: int| 0 <= j < q.len() && q[j] == n;
            assert(quarter_nodes(known)[j] == n);
        }
    }
}

/// What a place in a tree needs, one by one.
pub proof fn lemma_needed(z: ZoomView, h: Heap)
    requires
        z.wf(h),
    ensures
        forall|k: int| 0 <= k < 5 ==> h.live(#[trigger] z.sels[k]),
        h.live(z.tl),
        h.live(z.tr),
        h.live(z.bl),
        h.live(z.br),
        h.all_live(quarter_nodes(z.quarters)),
        h.all_live(color_nodes(z.colors)),
        h.all_live(z.keep),
{
    let n = z.needed();
    let q = quarter_nodes(z.quarters);
    let c = color_nodes(z.colors);
    assert forall|k: int| 0 <= k < 5 implies h.live(#[trigger] z.sels[k]) by {
        assert(n[k] == z.sels[k]);
    }
    assert(n[5] == z.tl && n[6] == z.tr && n[7] == z.bl && n[8] == z.br);
    assert forall|k: int| 0 <= k < q.len() implies h.live(#[trigger] q[k]) by {
        assert(n[9 + k] == q[k]);
    }
    assert forall|k: int| 0 <= k < c.len() implies h.live(#[trigger] c[k]) by {
        assert(n[9 + q.len() + k] == c[k]);
    }
    assert forall|k: int| 0 <= k < z.keep.len() implies h.live(#[trigger] z.keep[k]) by {
        assert(n[9 + q.len() + c.len() + k] == z.keep[k]);
    }
}

/// A place in a tree is well formed if its parts are live.
pub proof fn lemma_needed_live(z: ZoomView, h: Heap)
    requires
        z.sels.len() == 5,
        forall|k: int| 0 <= k < 5 ==> h.live(#[trigger] z.sels[k]),
        h.live(z.tl),
        h.live(z.tr),
        h.live(z.bl),
        h.live(z.br),
        h.all_live(quarter_nodes(z.quarters)),
        h.all_live(color_nodes(z.colors)),
        h.all_live(z.keep),
    ensures
        z.wf(h),
{
    let n = z.needed();
    let q = quarter_nodes(z.quarters);
    let c = color_nodes(z.colors);
    assert forall|k: int| 0 <= k < n.len() implies h.live(#[trigger] n[k]) by {
        if k < 5 {
            assert(n[k] == z.sels[k]);
        } else if k < 9 {
        } else if k < 9 + q.len() {
            assert(n[k] == q[k - 9]);
        } else if k < 9 + q.len() + c.len() {
            assert(n[k] == c[k - 9 - q.len()]);
        } else {
            assert(n[k] == z.keep[k - 9 - q.len() - c.len()]);
        }
    }
}

/// Work on the arena leaves a place well formed.
pub proof fn lemma_zoom_leads(z: ZoomView, h: Heap, h1: Heap)
    requires
        z.wf(h),
        h.leads_to(h1),
    ensures
        z.wf(h1),
{
    assert forall|k: int| 0 <= k < z.needed().len() implies h1.live(#[trigger] z.needed()[k]) by {
        assert(h.live(z.needed()[k]));
    }
}

/// A collection that keeps what is needed leaves a place well formed, and its
/// nodes stand for what they stood for.
pub proof fn lemma_gc_zoom(z: ZoomView, h: Heap)
    requires
        h.wf(),
        z.wf(h),
    ensures
        h.gc_zoom(z).wf(),
        z.wf(h.gc_zoom(z)),
        forall|k: int|
            0 <= k < z.needed().len() ==> h.gc_zoom(z).term(#[trigger] z.needed()[k]) == h.term(
                z.needed()[k],
            ),
{
    crate::gc::lemma_gc(h, z.needed());
    assert forall|k: int| 0 <= k < z.needed().len() implies h.gc_zoom(z).live(
        #[trigger] z.needed()[k],
    ) by {
        assert(h.live(z.needed()[k]));
    }
}

/// A collection that keeps what is needed keeps what is known: those nodes stand
/// for what they stood for.
pub proof fn lemma_gc_known(z: ZoomView, h: Heap)
    requires
        h.wf(),
        z.wf(h),
    ensures
        forall|i: int| #![trigger z.quarters[i]]
            0 <= i < z.quarters.len() ==> {
                let k = z.quarters[i];
                &&& h.gc_zoom(z).same(h, k.parent)
                &&& h.gc_zoom(z).same(h, k.tl) && h.gc_zoom(z).same(h, k.tr)
                &&& h.gc_zoom(z).same(h, k.bl) && h.gc_zoom(z).same(h, k.br)
            },
        forall|i: int|
            0 <= i < z.colors.len() ==> h.gc_zoom(z).same(h, (#[trigger] z.colors[i]).node),
{
    let h1 = h.gc_zoom(z);
    let n = z.needed();
    let q = quarter_nodes(z.quarters);
    let c = color_nodes(z.colors);
    lemma_gc_zoom(z, h);
    assert forall|x: u32| q.contains(x) implies #[trigger] h1.same(h, x) by {
        let j = choose|j: int| 0 <= j < q.len() && q[j] == x;
        assert(n[9 + j] == x);
        assert(h1.live(n[9 + j]));
    }
    assert forall|i: int| #![trigger z.quarters[i]] 0 <= i < z.quarters.len() implies {
        let k = z.quarters[i];
        &&& h1.same(h, k.parent)
        &&& h1.same(h, k.tl) && h1.same(h, k.tr)
        &&& h1.same(h, k.bl) && h1.same(h, k.br)
    } by {
        lemma_quarter_nodes(z.quarters, z.quarters[i]);
    }
    assert forall|i: int| 0 <= i < z.colors.len() implies h1.same(
        h,
        (#[trigger] z.colors[i]).node,
    ) by {
        assert(c[i] == z.colors[i].node);
        assert(n[9 + q.len() + i] == c[i]);
        assert(h1.live(n[9 + q.len() + i]));
    }
}

impl Zoom {
    /// The nodes that a collection has to keep.
    fn needed(&self) -> (nodes: Vec<u32>)
        ensures
            nodes@ == self@.needed(),
    {
        let mut nodes: Vec<u32> = self.sels.clone();
        proof {
            assert(nodes@ =~= self.sels@);
        }
        nodes.push(self.tl);
        nodes.push(self.tr);
        nodes.push(self.bl);
        nodes.push(self.br);
        let ghost base = nodes@;
        let mut k: usize = 0;
        assert(self.quarters@.take(0) =~= Seq::empty());
        assert(base + Seq::<u32>::empty() =~= base);
        while k < self.quarters.len()
            invariant
                k <= self.quarters@.len(),
                nodes@ == base + quarter_nodes(self.quarters@.take(k as int)),
            decreases self.quarters@.len() - k,
        {
            let q = self.quarters.item(k);
            proof {
                assert(self.quarters@.take(k + 1).drop_last() =~= self.quarters@.take(k as int));
            }
            let ghost before = nodes@;
            nodes.push(q.parent);
            nodes.push(q.tl);
            nodes.push(q.tr);
            nodes.push(q.bl);
            nodes.push(q.br);
            assert(nodes@ =~= before + seq![q.parent, q.tl, q.tr, q.bl, q.br]);
            assert(nodes@ =~= base + quarter_nodes(self.quarters@.take(k + 1)));
            k += 1;
        }
        assert(self.quarters@.take(k as int) =~= self.quarters@);
        let ghost base2 = nodes@;
        let mut k: usize = 0;
        while k < self.colors.len()
            invariant
                k <= self.colors@.len(),
                nodes@ =~= base2 + color_nodes(self.colors@).take(k as int),
            decreases self.colors@.len() - k,
        {
            nodes.push(self.colors.item(k).node);
            k += 1;
        }
        let ghost base3 = nodes@;
        let mut k: usize = 0;
        while k < self.keep.len()
            invariant
                k <= self.keep@.len(),
                nodes@ =~= base3 + self.keep@.take(k as int),
            decreases self.keep.len() - k,
        {
            nodes.push(self.keep[k]);
            k += 1;
        }
        assert(nodes@ =~= self@.needed());
        nodes
    }
}

/// How many nodes should be free.
pub fn calc_gc_min_free(len: usize, limit: usize) -> (n: usize)
    ensures
        n == min_free(len as nat, limit as nat),
{
    let remaining: usize = if limit > len {
        limit - len
    } else {
        0
    };
    let third: usize = remaining / 3;
    if third < 5_000_000 {
        5_000_000
    } else if third > 60_000_000 {
        60_000_000
    } else {
        third
    }
}

/// Collects, keeping what is needed.
pub fn gc_zoom_roots(arena: &mut Arena, z: &Zoom) -> (report: GcReport)
    requires
        old(arena)@.wf(),
        z@.wf(old(arena)@),
    ensures
        final(arena)@ == old(arena)@.gc_zoom(z@),
        final(arena)@.wf(),
        z@.wf(final(arena)@),
        report == final(arena)@.report(old(arena)@),
        report.total == report.live + report.freed,
{
    proof {
        lemma_gc_zoom(z@, arena@);
    }
    let nodes = z.needed();
    let (total, live, freed) = arena.gc(nodes.as_slice());
    GcReport { total, live, freed }
}

/// Forgets what is known and collects, if too few nodes are free.
pub fn maybe_gc_zoom(arena: &mut Arena, z: &mut Zoom) -> (report: Option<GcReport>)
    requires
        old(arena)@.wf(),
        old(z)@.wf(old(arena)@),
    ensures
        (final(arena)@, final(z)@) == old(arena)@.maybe_gc(old(z)@),
        final(arena)@.wf(),
        final(z)@.wf(final(arena)@),
        report == old(arena)@.gc_report(old(z)@),
{
    let min: usize = calc_gc_min_free(arena.len(), z.limit);
    if arena.free_len() >= min {
        return None;
    }
    proof {
        lemma_needed(z@, arena@);
        lemma_needed_live(z@.forget(), arena@);
    }
    z.forget();
    Some(gc_zoom_roots(arena, z))
}

impl Zoom {
    /// Forgets what is known.
    pub fn forget(&mut self)
        ensures
            final(self)@ == old(self)@.forget(),
    {
        self.quarters.clear();
        self.colors.clear();
        assert(self@ =~= old(self)@.forget());
    }
}

/// Evaluates a field of a node.
pub(crate) fn field(arena: &mut Arena, node: u32, sel: u32, fuel: &mut u64) -> (r: Result<u32, AllocError>)
    requires
        old(arena)@.wf(),
        old(arena)@.live(node),
        old(arena)@.live(sel),
    ensures
        Heap::ran_fuel(
            old(arena)@.field(node, sel, *old(fuel) as nat),
            final(arena)@,
            r,
            *final(fuel),
        ),
        old(arena)@.leads_to(final(arena)@),
        *final(fuel) <= *old(fuel),
        r matches Ok(i) ==> final(arena)@.live(i),
{
    let app: u32 = arena.allocate(APP, node, sel)?;
    arena.eval(app, fuel)
}

/// Evaluates the four quarters of a node.
fn eval_quarters(arena: &mut Arena, sels: &Vec<u32>, p: u32, fuel: u64) -> (r: Result<
    KnownQuarters,
    AllocError,
>)
    requires
        old(arena)@.wf(),
        old(arena)@.live(p),
        sels@.len() == 5,
        forall|k: int| 0 <= k < 5 ==> old(arena)@.live(#[trigger] sels@[k]),
    ensures
        Heap::ran(old(arena)@.eval_quarters(sels@, p, fuel as nat), final(arena)@, r),
        old(arena)@.leads_to(final(arena)@),
        r matches Ok(k) ==> k.parent == p && final(arena)@.live2(k.tl, k.tr) && final(arena)@.live2(
            k.bl,
            k.br,
        ),
{
    let ghost h0 = arena@;
    proof {
        assert(h0.live(sels@[1]) && h0.live(sels@[2]) && h0.live(sels@[3]) && h0.live(sels@[4]));
    }
    let mut f1: u64 = fuel;
    let tl: u32 = field(arena, p, sels[1], &mut f1)?;
    let mut f2: u64 = fuel;
    let tr: u32 = field(arena, p, sels[2], &mut f2)?;
    let mut f3: u64 = fuel;
    let bl: u32 = field(arena, p, sels[3], &mut f3)?;
    let mut f4: u64 = fuel;
    let br: u32 = field(arena, p, sels[4], &mut f4)?;
    Ok(KnownQuarters { parent: p, tl, tr, bl, br })
}

/// The quarter of a node with a number, from one: evaluated unless it is
/// known.
pub fn get_child_fn(arena: &mut Arena, z: &mut Zoom, parent: u32, child_idx: usize, fuel: u64) -> (r:
    Result<u32, AllocError>)
    requires
        old(arena)@.wf(),
        old(z)@.wf(old(arena)@),
        old(arena)@.live(parent),
        1 <= child_idx <= 4,
    ensures
        match r {
            Ok(c) => old(arena)@.get_quarters(old(z)@, parent, fuel as nat) matches Ok((h, (k, z1)))
                && h == final(arena)@ && z1 == final(z)@ && c == k.child(child_idx as int),
            Err(e) => old(arena)@.get_quarters(old(z)@, parent, fuel as nat) == Err::<
                (Heap, (KnownQuarters, ZoomView)),
                AllocError,
            >(e),
        },
        old(arena)@.leads_to(final(arena)@),
        final(z)@.wf(final(arena)@),
        final(z)@ == (ZoomView { quarters: final(z)@.quarters, ..old(z)@ }),
        r matches Ok(c) ==> final(arena)@.live(c),
{
    proof {
        reveal(Heap::get_quarters);
        lemma_needed(z@, arena@);
        crate::heap::lemma_leads_refl(arena@);
    }
    let ghost h0 = arena@;
    let ghost z0 = z@;
    let p: u32 = arena.follow(parent);
    let k = match z.quarters.find(p) {
        Some(k) => {
            proof {
                lemma_quarter_nodes(z@.quarters, k);
            }
            k
        },
        None => {
            let r = eval_quarters(arena, &z.sels, p, fuel);
            proof {
                lemma_zoom_leads(z0, h0, arena@);
            }
            let k = r?;
            z.quarters.push(k);
            proof {
                lemma_add_quarters(z0, arena@, k);
                assert(z@ =~= (ZoomView { quarters: z0.quarters.push(k), ..z0 }));
            }
            k
        },
    };
    if child_idx == 1 {
        Ok(k.tl)
    } else if child_idx == 2 {
        Ok(k.tr)
    } else if child_idx == 3 {
        Ok(k.bl)
    } else {
        Ok(k.br)
    }
}

/// The color of a node: evaluated unless it is known.
pub fn get_bool_fn(arena: &mut Arena, z: &mut Zoom, node: u32, fuel: u64) -> (r: Result<
    Option<bool>,
    AllocError,
>)
    requires
        old(arena)@.wf(),
        old(z)@.wf(old(arena)@),
        old(arena)@.live(node),
    ensures
        match r {
            Ok(b) => old(arena)@.get_color(old(z)@, node, fuel as nat) == Ok::<
                (Heap, (Option<bool>, ZoomView)),
                AllocError,
            >((final(arena)@, (b, final(z)@))),
            Err(e) => old(arena)@.get_color(old(z)@, node, fuel as nat) == Err::<
                (Heap, (Option<bool>, ZoomView)),
                AllocError,
            >(e),
        },
        old(arena)@.leads_to(final(arena)@),
        final(z)@.wf(final(arena)@),
        final(z)@ == (ZoomView { colors: final(z)@.colors, ..old(z)@ }),
{
    proof {
        reveal(Heap::get_color);
        lemma_needed(z@, arena@);
        crate::heap::lemma_leads_refl(arena@);
        assert(arena@.live(z@.sels[0]));
    }
    let ghost h0 = arena@;
    let ghost z0 = z@;
    let n: u32 = arena.follow(node);
    if let Some(k) = z.colors.find(n) {
        return Ok(k.color);
    }
    let mut f: u64 = fuel;
    let r = field(arena, n, z.sels[0], &mut f);
    proof {
        lemma_zoom_leads(z0, h0, arena@);
    }
    let cond: u32 = r?;
    let r = decode_bool(arena, cond, 5_000_000);
    proof {
        lemma_zoom_leads(z0, h0, arena@);
        lemma_needed(z0, arena@);
    }
    let color = r?;
    z.colors.push(KnownColor { node: n, color });
    proof {
        lemma_add_color(z0, arena@, KnownColor { node: n, color });
        assert(z@ =~= (ZoomView {
            colors: z0.colors.push(KnownColor { node: n, color }),
            ..z0
        }));
    }
    Ok(color)
}

/// What was collected during a step to the center.
#[derive(Clone, Copy, PartialEq, Eq, Structural, Debug)]
pub struct StepReport {
    pub before: Option<GcReport>,
    pub between: Option<GcReport>,
}

/// The fuel for evaluating a quarter.
pub const CHILD_FUEL: u64 = 120_000_000;

/// The fuel for evaluating the color of a quarter.
pub const PROBE_FUEL: u64 = 12_000_000;

impl Heap {
    /// The selectors of the five fields, from `pos` on, after those in `sels`.
    pub open spec fn all_sels(self, pos: int, sels: Seq<u32>) -> Outcome<Seq<u32>>
        decreases 5 - pos,
    {
        if pos >= 5 {
            Ok((self, sels))
        } else {
            match self.intern_diamond_sel(pos) {
                Err(e) => Err(e),
                Ok((h, s)) => h.all_sels(pos + 1, sels.push(s)),
            }
        }
    }

    /// The place at the root of a tree.
    pub open spec fn zoom_start(self, data: u32, keep: Seq<u32>, limit: nat) -> Outcome<ZoomView> {
        match self.all_sels(0, Seq::empty()) {
            Err(e) => Err(e),
            Ok((h1, sels)) => {
                let z = ZoomView {
                    sels,
                    tl: data,
                    tr: data,
                    bl: data,
                    br: data,
                    quarters: Seq::empty(),
                    colors: Seq::empty(),
                    keep,
                    limit,
                };
                match h1.get_quarters(z, data, CHILD_FUEL as nat) {
                    Err(e) => Err(e),
                    Ok((h2, (k1, z1))) => match h2.get_quarters(z1, data, CHILD_FUEL as nat) {
                        Err(e) => Err(e),
                        Ok((h3, (k2, z2))) => match h3.get_quarters(z2, data, CHILD_FUEL as nat) {
                            Err(e) => Err(e),
                            Ok((h4, (k3, z3))) => match h4.get_quarters(
                                z3,
                                data,
                                CHILD_FUEL as nat,
                            ) {
                                Err(e) => Err(e),
                                Ok((h5, (k4, z4))) => Ok(
                                    (
                                        h5,
                                        ZoomView { tl: k1.tl, tr: k2.tr, bl: k3.bl, br: k4.br, ..z4 },
                                    ),
                                ),
                            },
                        },
                    },
                }
            },
        }
    }

    /// Goes to the center: each quarter is replaced by its quarter that lies
    /// there.
    pub open spec fn zoom_in(self, z: ZoomView) -> Outcome<(ZoomView, StepReport)> {
        let (h1, z1) = self.maybe_gc(z);
        match h1.get_quarters(z1, z1.tl, CHILD_FUEL as nat) {
            Err(e) => Err(e),
            Ok((h2, (tl, z2))) => {
                let (h3, z3) = h2.maybe_gc(z2.also(tl.br));
                match h3.get_quarters(z3, z3.tr, CHILD_FUEL as nat) {
                    Err(e) => Err(e),
                    Ok((h4, (tr, z4))) => match h4.get_quarters(z4, z4.bl, CHILD_FUEL as nat) {
                        Err(e) => Err(e),
                        Ok((h5, (bl, z5))) => match h5.get_quarters(
                            z5,
                            z5.br,
                            CHILD_FUEL as nat,
                        ) {
                            Err(e) => Err(e),
                            Ok((h6, (br, z6))) => Ok(
                                (
                                    h6,
                                    (
                                        ZoomView {
                                            tl: tl.br,
                                            tr: tr.bl,
                                            bl: bl.tr,
                                            br: br.tl,
                                            keep: z6.keep.drop_last(),
                                            ..z6
                                        },
                                        StepReport {
                                            before: self.gc_report(z),
                                            between: h2.gc_report(z2.also(tl.br)),
                                        },
                                    ),
                                ),
                            ),
                        },
                    },
                }
            },
        }
    }

    /// The color of a quarter, after a collection if one is due.
    pub open spec fn probe(self, z: ZoomView, node: u32) -> Outcome<(Option<bool>, ZoomView)> {
        let (h1, z1) = self.maybe_gc(z);
        h1.get_color(z1, node, PROBE_FUEL as nat)
    }

    /// The colors of quarters, after those in `colors`, and what was collected
    /// before each, after what is in `reports`.
    pub open spec fn probe_all(
        self,
        z: ZoomView,
        nodes: Seq<u32>,
        colors: Seq<Option<bool>>,
        reports: Seq<Option<GcReport>>,
    ) -> Outcome<(ZoomView, Seq<Option<bool>>, Seq<Option<GcReport>>)>
        decreases nodes.len(),
    {
        if nodes.len() == 0 {
            Ok((self, (z, colors, reports)))
        } else {
            match self.probe(z, nodes[0]) {
                Err(e) => Err(e),
                Ok((h, (c, z1))) => h.probe_all(
                    z1,
                    nodes.skip(1),
                    colors.push(c),
                    reports.push(self.gc_report(z)),
                ),
            }
        }
    }
}

/// The selectors of the five fields.
pub fn all_sels(arena: &mut Arena) -> (r: Result<Vec<u32>, AllocError>)
    requires
        old(arena)@.wf(),
    ensures
        Heap::ran_vec(old(arena)@.all_sels(0, Seq::empty()), final(arena)@, r),
        old(arena)@.leads_to(final(arena)@),
        r matches Ok(s) ==> s@.len() == 5 && final(arena)@.all_live(s@),
{
    let ghost h0 = arena@;
    let mut sels: Vec<u32> = Vec::new();
    let mut pos: usize = 0;
    proof {
        crate::heap::lemma_leads_refl(h0);
        assert(sels@ =~= Seq::empty());
    }
    while pos < 5
        invariant
            pos <= 5,
            sels@.len() == pos,
            h0 == old(arena)@,
            h0.leads_to(arena@),
            arena@.wf(),
            arena@.all_live(sels@),
            h0.all_sels(0, Seq::empty()) == arena@.all_sels(pos as int, sels@),
        decreases 5 - pos,
    {
        let ghost h = arena@;
        let ghost before = sels@;
        let s: u32 = build_diamond_sel(arena, pos)?;
        sels.push(s);
        proof {
            assert forall|k: int| 0 <= k < sels@.len() implies arena@.live(#[trigger] sels@[k]) by {
                if k < before.len() {
                    assert(h.live(before[k]));
                }
            }
        }
        pos += 1;
    }
    Ok(sels)
}

/// The number of steps towards the center that are not drawn.
pub const UNSEEN_STEPS: usize = 7;

/// The first depth that is drawn.
pub const FIRST_DEPTH: usize = 9;

/// The last depth that is drawn.
pub const LAST_DEPTH: usize = 25;

/// A part of the way into an image.
#[derive(Clone, Copy, PartialEq, Eq, Structural, Debug)]
pub enum Visit {
    /// A step towards the center that is not drawn, with its number.
    Unseen(usize),
    /// What is known is forgotten, and what is not needed collected.
    Clear,
    /// A step towards the center that is drawn, with its depth.
    Draw(usize),
    /// The way ends here.
    Done,
}

/// The parts of the way, from number zero on: the unseen steps, a collection,
/// and the depths that are drawn.
pub open spec fn visit_of(k: nat) -> Visit {
    if k < UNSEEN_STEPS {
        Visit::Unseen((k + 1) as usize)
    } else if k == UNSEEN_STEPS {
        Visit::Clear
    } else if FIRST_DEPTH + (k - UNSEEN_STEPS - 1) <= LAST_DEPTH {
        Visit::Draw((FIRST_DEPTH + (k - UNSEEN_STEPS - 1)) as usize)
    } else {
        Visit::Done
    }
}

/// The part of the way with the number `k`.
pub fn visit(k: usize) -> (v: Visit)
    ensures
        v == visit_of(k as nat),
{
    if k < UNSEEN_STEPS {
        Visit::Unseen(k + 1)
    } else if k == UNSEEN_STEPS {
        Visit::Clear
    } else if k - UNSEEN_STEPS - 1 <= LAST_DEPTH - FIRST_DEPTH {
        Visit::Draw(FIRST_DEPTH + (k - UNSEEN_STEPS - 1))
    } else {
        Visit::Done
    }
}

/// The selector of the field `pos` of a five-tuple: applied to a tuple's
/// fields it gives that field.
pub fn build_diamond_sel(arena: &mut Arena, pos: usize) -> (r: Result<u32, AllocError>)
    requires
        old(arena)@.wf(),
        pos < 5,
    ensures
        Heap::ran(old(arena)@.intern_diamond_sel(pos as int), final(arena)@, r),
        old(arena)@.leads_to(final(arena)@),
        r matches Ok(i) ==> final(arena)@.live(i),
{
    arena.intern_diamond_sel(pos)
}

/// Starts at the root of a tree; `keep` is what else is still needed.
pub fn zoom_start(arena: &mut Arena, data: u32, keep: Vec<u32>, limit: usize) -> (r: Result<
    Zoom,
    AllocError,
>)
    requires
        old(arena)@.wf(),
        old(arena)@.live(data),
        old(arena)@.all_live(keep@),
    ensures
        match r {
            Ok(z) => old(arena)@.zoom_start(data, keep@, limit as nat) == Ok::<
                (Heap, ZoomView),
                AllocError,
            >((final(arena)@, z@)),
            Err(e) => old(arena)@.zoom_start(data, keep@, limit as nat) == Err::<
                (Heap, ZoomView),
                AllocError,
            >(e),
        },
        old(arena)@.leads_to(final(arena)@),
        r matches Ok(z) ==> z@.wf(final(arena)@),
{
    let ghost h0 = arena@;
    let sels = all_sels(arena)?;
    let ghost kept = keep@;
    let mut z = Zoom {
        sels,
        tl: data,
        tr: data,
        bl: data,
        br: data,
        quarters: Table::new(),
        colors: Table::new(),
        keep,
        limit,
    };
    proof {
        let h = arena@;
        assert(h.live(data));
        assert forall|k: int| 0 <= k < kept.len() implies h.live(#[trigger] kept[k]) by {
            assert(h0.live(kept[k]));
        }
        assert(z@.quarters =~= Seq::empty());
        assert(z@.colors =~= Seq::empty());
        assert(color_nodes(z@.colors) =~= Seq::empty());
        lemma_needed_live(z@, h);
    }
    let tl: u32 = get_child_fn(arena, &mut z, data, 1, CHILD_FUEL)?;
    let tr: u32 = get_child_fn(arena, &mut z, data, 2, CHILD_FUEL)?;
    let bl: u32 = get_child_fn(arena, &mut z, data, 3, CHILD_FUEL)?;
    let br: u32 = get_child_fn(arena, &mut z, data, 4, CHILD_FUEL)?;
    proof {
        lemma_needed(z@, arena@);
    }
    z.tl = tl;
    z.tr = tr;
    z.bl = bl;
    z.br = br;
    proof {
        lemma_needed_live(z@, arena@);
    }
    Ok(z)
}

/// More is known of a node that is live, as its quarters are.
pub proof fn lemma_add_quarters(z: ZoomView, h: Heap, k: KnownQuarters)
    requires
        z.wf(h),
        h.live(k.parent),
        h.live2(k.tl, k.tr),
        h.live2(k.bl, k.br),
    ensures
        (ZoomView { quarters: z.quarters.push(k), ..z }).wf(h),
{
    let z1 = ZoomView { quarters: z.quarters.push(k), ..z };
    lemma_needed(z, h);
    assert(z1.quarters.drop_last() =~= z.quarters);
    let q0 = quarter_nodes(z.quarters);
    let q = quarter_nodes(z1.quarters);
    assert(q =~= q0 + seq![k.parent, k.tl, k.tr, k.bl, k.br]);
    assert forall|i: int| 0 <= i < q.len() implies h.live(#[trigger] q[i]) by {
        if i < q0.len() {
            assert(q[i] == q0[i]);
        }
    }
    lemma_needed_live(z1, h);
}

/// The color of a node that is live is known.
pub proof fn lemma_add_color(z: ZoomView, h: Heap, k: KnownColor)
    requires
        z.wf(h),
        h.live(k.node),
    ensures
        (ZoomView { colors: z.colors.push(k), ..z }).wf(h),
{
    let z1 = ZoomView { colors: z.colors.push(k), ..z };
    lemma_needed(z, h);
    let c0 = color_nodes(z.colors);
    let c = color_nodes(z1.colors);
    assert forall|i: int| 0 <= i < c.len() implies h.live(#[trigger] c[i]) by {
        if i < c0.len() {
            assert(c[i] == c0[i]);
        }
    }
    lemma_needed_live(z1, h);
}

/// One node more is needed.
pub proof fn lemma_also(z: ZoomView, h: Heap, n: u32)
    requires
        z.wf(h),
        h.live(n),
    ensures
        z.also(n).wf(h),
{
    lemma_needed(z, h);
    let k = z.keep.push(n);
    assert forall|i: int| 0 <= i < k.len() implies h.live(#[trigger] k[i]) by {
        if i < z.keep.len() {
            assert(k[i] == z.keep[i]);
        }
    }
    lemma_needed_live(z.also(n), h);
}

/// To need a node that is kept anyway changes nothing: the collection in the
/// middle of a step is the one for the place alone, unless that would lose the
/// quarter that was just found.
pub proof fn lemma_also_kept(z: ZoomView, h: Heap, n: u32)
    requires
        h.graph.reachable(z.forget().needed() + h.roots, n),
    ensures
        h.maybe_gc(z.also(n)).0 == h.maybe_gc(z).0,
        h.maybe_gc(z.also(n)).1 == h.maybe_gc(z).1.also(n),
{
    let z1 = z.forget();
    assert(z.also(n).forget() == z1.also(n));
    assert(z1.also(n).needed() =~= z1.needed().push(n));
    crate::gc::lemma_gc_kept(h, z1.needed(), n);
}

/// Goes to the center: each quarter is replaced by its quarter that lies
/// there.
pub fn zoom_in(arena: &mut Arena, z: &mut Zoom) -> (r: Result<StepReport, AllocError>)
    requires
        old(arena)@.wf(),
        old(z)@.wf(old(arena)@),
    ensures
        match r {
            Ok(report) => old(arena)@.zoom_in(old(z)@) == Ok::<
                (Heap, (ZoomView, StepReport)),
                AllocError,
            >((final(arena)@, (final(z)@, report))),
            Err(e) => old(arena)@.zoom_in(old(z)@) == Err::<
                (Heap, (ZoomView, StepReport)),
                AllocError,
            >(e),
        },
        final(arena)@.wf(),
        r is Ok ==> final(z)@.wf(final(arena)@),
{
    let before = maybe_gc_zoom(arena, z);
    proof {
        lemma_needed(z@, arena@);
    }
    let zoom_tl: u32 = z.tl;
    let tl: u32 = get_child_fn(arena, z, zoom_tl, 4, CHILD_FUEL)?;
    proof {
        lemma_also(z@, arena@, tl);
    }
    let ghost z2 = z@;
    z.keep.push(tl);
    assert(z@ =~= z2.also(tl));
    let between = maybe_gc_zoom(arena, z);
    proof {
        lemma_needed(z@, arena@);
    }
    let zoom_tr: u32 = z.tr;
    let zoom_bl: u32 = z.bl;
    let zoom_br: u32 = z.br;
    let ghost kept = z@.keep;
    assert(arena@.live(kept[kept.len() - 1]));
    let ghost h3 = arena@;
    let tr: u32 = get_child_fn(arena, z, zoom_tr, 3, CHILD_FUEL)?;
    let bl: u32 = get_child_fn(arena, z, zoom_bl, 2, CHILD_FUEL)?;
    let br: u32 = get_child_fn(arena, z, zoom_br, 1, CHILD_FUEL)?;
    proof {
        lemma_needed(z@, arena@);
        assert(h3.live(tl));
    }
    let ghost z6 = z@;
    let _ = z.keep.pop();
    z.tl = tl;
    z.tr = tr;
    z.bl = bl;
    z.br = br;
    proof {
        assert(z@.keep =~= z6.keep.drop_last());
        assert forall|i: int| 0 <= i < z@.keep.len() implies arena@.live(#[trigger] z@.keep[i]) by {
            assert(z@.keep[i] == z6.keep[i]);
        }
        lemma_needed_live(z@, arena@);
    }
    Ok(StepReport { before, between })
}

/// The colors of the four quarters, and what was collected before each.
pub struct Probe {
    pub colors: Vec<Option<bool>>,
    pub reports: Vec<Option<GcReport>>,
}

/// The color of a quarter, after a collection if one is due.
fn probe(arena: &mut Arena, z: &mut Zoom, node: u32, out: &mut Probe) -> (r: Result<(), AllocError>)
    requires
        old(arena)@.wf(),
        old(z)@.wf(old(arena)@),
        node == old(z)@.tl || node == old(z)@.tr || node == old(z)@.bl || node == old(z)@.br,
    ensures
        match r {
            Ok(_) => old(arena)@.probe(old(z)@, node) matches Ok((h, (c, z1))) && h == final(arena)@
                && z1 == final(z)@ && final(out).colors@ == old(out).colors@.push(c) && final(out).reports@ == old(out).reports@.push(old(arena)@.gc_report(old(z)@)),
            Err(e) => old(arena)@.probe(old(z)@, node) == Err::<
                (Heap, (Option<bool>, ZoomView)),
                AllocError,
            >(e),
        },
        final(arena)@.wf(),
        final(z)@.wf(final(arena)@),
        final(z)@.tl == old(z)@.tl && final(z)@.tr == old(z)@.tr,
        final(z)@.bl == old(z)@.bl && final(z)@.br == old(z)@.br,
{
    let report = maybe_gc_zoom(arena, z);
    proof {
        lemma_needed(z@, arena@);
    }
    out.reports.push(report);
    let c = get_bool_fn(arena, z, node, PROBE_FUEL)?;
    out.colors.push(c);
    Ok(())
}

/// The colors of the four quarters: top left, top right, bottom left, bottom
/// right.
pub fn probe_all(arena: &mut Arena, z: &mut Zoom) -> (r: Result<Probe, AllocError>)
    requires
        old(arena)@.wf(),
        old(z)@.wf(old(arena)@),
    ensures
        ({
            let z0 = old(z)@;
            let nodes = seq![z0.tl, z0.tr, z0.bl, z0.br];
            let s = old(arena)@.probe_all(z0, nodes, Seq::empty(), Seq::empty());
            match r {
                Ok(p) => s == Ok::<
                    (Heap, (ZoomView, Seq<Option<bool>>, Seq<Option<GcReport>>)),
                    AllocError,
                >((final(arena)@, (final(z)@, p.colors@, p.reports@))),
                Err(e) => s == Err::<
                    (Heap, (ZoomView, Seq<Option<bool>>, Seq<Option<GcReport>>)),
                    AllocError,
                >(e),
            }
        }),
        r matches Ok(p) ==> p.colors@.len() == 4 && p.reports@.len() == 4,
        final(arena)@.wf(),
        final(z)@.wf(final(arena)@),
{
    let nodes: [u32; 4] = [z.tl, z.tr, z.bl, z.br];
    let ghost all = seq![z@.tl, z@.tr, z@.bl, z@.br];
    let ghost goal = arena@.probe_all(z@, all, Seq::empty(), Seq::empty());
    let mut out = Probe { colors: Vec::new(), reports: Vec::new() };
    let mut k: usize = 0;
    proof {
        assert(nodes@ =~= all);
        assert(all.skip(0) =~= all);
        assert(out.colors@ =~= Seq::empty());
        assert(out.reports@ =~= Seq::empty());
    }
    while k < 4
        invariant
            k <= 4,
            nodes@ == all,
            all == seq![z@.tl, z@.tr, z@.bl, z@.br],
            all == seq![old(z)@.tl, old(z)@.tr, old(z)@.bl, old(z)@.br],
            arena@.wf(),
            z@.wf(arena@),
            out.colors@.len() == k,
            out.reports@.len() == k,
            goal == old(arena)@.probe_all(old(z)@, all, Seq::empty(), Seq::empty()),
            goal == arena@.probe_all(z@, all.skip(k as int), out.colors@, out.reports@),
        decreases 4 - k,
    {
        proof {
            assert(all.skip(k as int).skip(1) =~= all.skip(k + 1));
        }
        probe(arena, z, nodes[k], &mut out)?;
        k += 1;
    }
    assert(all.skip(4) =~= Seq::empty());
    Ok(out)
}

} // verus!
