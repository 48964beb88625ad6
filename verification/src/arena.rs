//! The arena: allocation, shared nodes, and indirections.

use vstd::prelude::*;
use crate::graph::Graph;
use crate::heap::{AllocError, ARENA_HARD_LIMIT, Cached, Heap};
use crate::node::{I, IND, K, K1, MARKER_F, MARKER_T, NIL, Node, S2};

verus! {

broadcast use crate::heap::group_leads;

/// The nodes of a program and what is known about them.
pub struct Arena {
    nodes: Vec<Node>,
    free_list: Vec<u32>,
    gc_roots: Vec<u32>,
    cached_k: Option<u32>,
    cached_i: Option<u32>,
    cached_ki: Option<u32>,
    cached_marker_t: Option<u32>,
    cached_marker_f: Option<u32>,
    cached_diamond_sels: [Option<u32>; 5],
    io_alloc_failsafe_limit: Option<usize>,
    checkpoint: Option<usize>,
    saved_nodes: Vec<(u32, Node)>,
}

impl View for Arena {
    type V = Heap;

    closed spec fn view(&self) -> Heap {
        Heap {
            graph: Graph { nodes: self.nodes@, free: self.free_list@ },
            roots: self.gc_roots@,
            cached: Cached {
                k: self.cached_k,
                i: self.cached_i,
                ki: self.cached_ki,
                marker_t: self.cached_marker_t,
                marker_f: self.cached_marker_f,
                sels: self.cached_diamond_sels@,
            },
            limit: self.io_alloc_failsafe_limit,
            checkpoint: self.checkpoint,
            saved: self.saved_nodes@,
        }
    }
}

impl Heap {
    /// An arena without nodes.
    pub open spec fn empty() -> Heap {
        Heap {
            graph: Graph { nodes: Seq::empty(), free: Seq::empty() },
            roots: Seq::empty(),
            cached: Cached {
                k: None,
                i: None,
                ki: None,
                marker_t: None,
                marker_f: None,
                sels: seq![None, None, None, None, None],
            },
            limit: None,
            checkpoint: None,
            saved: Seq::empty(),
        }
    }

    /// The limit, moved into the range that a failsafe can have.
    pub open spec fn failsafe(limit: usize) -> usize {
        if limit < 1 {
            1
        } else if limit > ARENA_HARD_LIMIT {
            ARENA_HARD_LIMIT
        } else {
            limit
        }
    }

    /// A shared node, unless it lies beyond the end of the arena.
    pub open spec fn valid_cached(self, c: Option<u32>) -> Option<u32> {
        match c {
            Some(i) => if i < self.graph.nodes.len() {
                c
            } else {
                None
            },
            None => None,
        }
    }
}

impl Arena {
    /// An empty arena with space for `capacity` nodes.
    pub fn new(capacity: usize) -> (arena: Arena)
        ensures
            arena@ == Heap::empty(),
            arena@.wf(),
    {
        let arena = Arena {
            nodes: Vec::with_capacity(capacity),
            free_list: Vec::new(),
            gc_roots: Vec::new(),
            cached_k: None,
            cached_i: None,
            cached_ki: None,
            cached_marker_t: None,
            cached_marker_f: None,
            cached_diamond_sels: [None, None, None, None, None],
            io_alloc_failsafe_limit: None,
            checkpoint: None,
            saved_nodes: Vec::new(),
        };
        proof {
            let h = arena@;
            assert(h.cached.sels =~= Heap::empty().cached.sels);
            assert(h.graph.nodes =~= Seq::empty());
            assert(h.graph.free =~= Seq::empty());
            assert(h.roots =~= Seq::empty());
            assert(h.saved =~= Seq::empty());
            assert(h.graph.ranked(Seq::empty()));
        }
        arena
    }

    /// The number of nodes, free ones among them.
    pub fn len(&self) -> (n: usize)
        ensures
            n == self@.graph.nodes.len(),
    {
        self.nodes.len()
    }

    /// The number of free nodes.
    pub fn free_len(&self) -> (n: usize)
        ensures
            n == self@.graph.free.len(),
    {
        self.free_list.len()
    }

    /// The limit of the failsafe, if it is enabled.
    pub fn failsafe_limit(&self) -> (limit: Option<usize>)
        ensures
            limit == self@.limit,
    {
        self.io_alloc_failsafe_limit
    }

    /// Whether a checkpoint is set.
    pub fn has_checkpoint(&self) -> (set: bool)
        ensures
            set == self@.checkpoint is Some,
    {
        self.checkpoint.is_some()
    }

    /// The nodes that every collection keeps.
    pub(crate) fn own_roots(&self) -> (roots: &Vec<u32>)
        ensures
            roots@ == self@.roots,
    {
        &self.gc_roots
    }

    /// Replaces the free list.
    pub(crate) fn set_free(&mut self, free: Vec<u32>)
        ensures
            final(self)@ == (Heap {
                graph: Graph { nodes: old(self)@.graph.nodes, free: free@ },
                ..old(self)@
            }),
    {
        self.free_list = free;
    }

    /// The content of a node.
    pub fn node(&self, idx: u32) -> (n: Node)
        requires
            idx < self@.graph.nodes.len(),
        ensures
            n == self@.at(idx),
    {
        self.nodes[idx as usize]
    }

    /// Limits the number of nodes.
    pub fn enable_io_alloc_failsafe(&mut self, limit: usize)
        ensures
            final(self)@ == (Heap { limit: Some(Heap::failsafe(limit)), ..old(self)@ }),
            old(self)@.wf() ==> final(self)@.wf(),
    {
        let clamped: usize = if limit < 1 {
            1
        } else if limit > ARENA_HARD_LIMIT {
            ARENA_HARD_LIMIT
        } else {
            limit
        };
        self.io_alloc_failsafe_limit = Some(clamped);
        proof {
            let h = old(self)@;
            let h1 = self@;
            if h.wf() {
                assert forall|p: int| 0 <= p < 5 implies h1.pinned(#[trigger] h1.cached.sels[p]) && (
                h1.cached.sels[p] matches Some(i) ==> h1.graph.is_sel(i, p)) by {
                    assert(h.pinned(h.cached.sels[p]));
                }
            }
        }
    }

    /// An arena in the same state.
    pub fn copy(&self) -> (c: Arena)
        ensures
            c@ == self@,
    {
        let mut saved: Vec<(u32, Node)> = Vec::new();
        let mut k: usize = 0;
        while k < self.saved_nodes.len()
            invariant
                k <= self.saved_nodes@.len(),
                saved@ == self.saved_nodes@.take(k as int),
            decreases self.saved_nodes.len() - k,
        {
            saved.push(self.saved_nodes[k]);
            k += 1;
            assert(saved@ =~= self.saved_nodes@.take(k as int));
        }
        let c = Arena {
            nodes: self.nodes.clone(),
            free_list: self.free_list.clone(),
            gc_roots: self.gc_roots.clone(),
            cached_k: self.cached_k,
            cached_i: self.cached_i,
            cached_ki: self.cached_ki,
            cached_marker_t: self.cached_marker_t,
            cached_marker_f: self.cached_marker_f,
            cached_diamond_sels: self.cached_diamond_sels,
            io_alloc_failsafe_limit: self.io_alloc_failsafe_limit,
            checkpoint: self.checkpoint,
            saved_nodes: saved,
        };
        assert(c.nodes@ =~= self.nodes@);
        assert(c.free_list@ =~= self.free_list@);
        assert(c.gc_roots@ =~= self.gc_roots@);
        assert(c.saved_nodes@ =~= self.saved_nodes@);
        c
    }

    /// Allocates a node.
    pub fn allocate(&mut self, tag: u8, a: u32, b: u32) -> (r: Result<u32, AllocError>)
        requires
            old(self)@.wf(),
            forall|c: u32| #[trigger] (Node { tag, a, b }).child(c) ==> old(self)@.live(c),
        ensures
            Heap::ran(old(self)@.grow(Node { tag, a, b }), final(self)@, r),
            r is Ok <==> old(self)@.room() > 0,
            r is Err ==> final(self)@ == old(self)@,
            r matches Ok(i) ==> old(self)@.grew(final(self)@, i, Node { tag, a, b }),
            old(self)@.leads_to(final(self)@),
    {
        let n = Node { tag, a, b };
        proof {
            crate::heap::lemma_alloc(self@, n);
            crate::heap::lemma_leads_refl(self@);
        }
        if self.checkpoint.is_none() {
            if let Some(idx) = self.free_list.pop() {
                self.nodes.set(idx as usize, n);
                return Ok(idx);
            }
        }
        if self.nodes.len() >= ARENA_HARD_LIMIT {
            return Err(AllocError::ArenaLimit);
        }
        if let Some(limit) = self.io_alloc_failsafe_limit {
            if self.nodes.len() >= limit {
                return Err(AllocError::Failsafe);
            }
        }
        let idx: u32 = self.nodes.len() as u32;
        self.nodes.push(n);
        Ok(idx)
    }

    /// Records what a node holds, if it lies below the checkpoint.
    pub fn save_node(&mut self, idx: u32)
        requires
            old(self)@.checkpoint matches Some(c) ==> c <= old(self)@.graph.nodes.len(),
        ensures
            final(self)@ == old(self)@.save(idx),
    {
        if let Some(cp) = self.checkpoint {
            if (idx as usize) < cp {
                let n = self.nodes[idx as usize];
                self.saved_nodes.push((idx, n));
            }
        }
    }

    /// Replaces a node, after recording what it held.
    pub(crate) fn overwrite(&mut self, idx: u32, n: Node)
        requires
            old(self)@.checkpoint matches Some(c) ==> c <= old(self)@.graph.nodes.len(),
            idx < old(self)@.graph.nodes.len(),
        ensures
            final(self)@ == old(self)@.overwrite(idx, n),
    {
        self.save_node(idx);
        self.nodes.set(idx as usize, n);
    }

    /// Adds a node to those that every collection keeps.
    pub fn keep_root(&mut self, idx: u32)
        ensures
            final(self)@ == old(self)@.keep(idx),
            old(self)@.wf() && !old(self)@.graph.free.contains(idx) ==> old(self)@.leads_to(
                final(self)@,
            ),
            old(self)@.roots.no_duplicates() ==> final(self)@.roots.no_duplicates(),
    {
        proof {
            if self@.wf() && !self@.graph.free.contains(idx) {
                crate::heap::lemma_keep(self@, idx);
            }
        }
        let mut k: usize = 0;
        while k < self.gc_roots.len()
            invariant
                k <= self.gc_roots.len(),
                self@ == old(self)@,
                self@.wf() && !self@.graph.free.contains(idx) ==> self@.leads_to(self@.keep(idx)),
                forall|j: int| 0 <= j < k ==> self.gc_roots@[j] != idx,
            decreases self.gc_roots.len() - k,
        {
            if self.gc_roots[k] == idx {
                assert(self@.roots.contains(idx));
                return;
            }
            k += 1;
        }
        assert(!self@.roots.contains(idx));
        self.gc_roots.push(idx);
    }

    /// A shared node, unless it lies beyond the end of the arena.
    pub fn valid_cached(&self, idx: Option<u32>) -> (r: Option<u32>)
        ensures
            r == self@.valid_cached(idx),
    {
        match idx {
            Some(i) => if (i as usize) < self.nodes.len() {
                Some(i)
            } else {
                None
            },
            None => None,
        }
    }

    /// The shared node for `K`.
    pub fn intern_k(&mut self) -> (r: Result<u32, AllocError>)
        requires
            old(self)@.wf(),
        ensures
            Heap::ran(old(self)@.intern_k(), final(self)@, r),
            old(self)@.leads_to(final(self)@),
            r matches Ok(i) ==> final(self)@.live(i),
            r is Ok ==> old(self)@.builds(final(self)@, 1),
    {
        proof {
            crate::intern::lemma_intern_k(self@);
            crate::heap::lemma_leads_refl(self@);
        }
        if let Some(idx) = self.valid_cached(self.cached_k) {
            return Ok(idx);
        }
        let idx: u32 = self.allocate(K, NIL, NIL)?;
        if self.checkpoint.is_none() {
            self.cached_k = Some(idx);
            self.keep_root(idx);
        }
        Ok(idx)
    }

    /// The shared node for `I`.
    pub fn intern_i(&mut self) -> (r: Result<u32, AllocError>)
        requires
            old(self)@.wf(),
        ensures
            Heap::ran(old(self)@.intern_i(), final(self)@, r),
            old(self)@.leads_to(final(self)@),
            r matches Ok(i) ==> final(self)@.live(i),
            r is Ok ==> old(self)@.builds(final(self)@, 1),
    {
        proof {
            crate::intern::lemma_intern_i(self@);
            crate::heap::lemma_leads_refl(self@);
        }
        if let Some(idx) = self.valid_cached(self.cached_i) {
            return Ok(idx);
        }
        let idx: u32 = self.allocate(I, NIL, NIL)?;
        if self.checkpoint.is_none() {
            self.cached_i = Some(idx);
            self.keep_root(idx);
        }
        Ok(idx)
    }

    /// The shared node for `K I`.
    pub fn intern_ki(&mut self) -> (r: Result<u32, AllocError>)
        requires
            old(self)@.wf(),
        ensures
            Heap::ran(old(self)@.intern_ki(), final(self)@, r),
            old(self)@.leads_to(final(self)@),
            r matches Ok(i) ==> final(self)@.live(i),
            r is Ok ==> old(self)@.builds(final(self)@, 2),
    {
        proof {
            crate::intern::lemma_intern_ki(self@);
            crate::heap::lemma_leads_refl(self@);
        }
        if let Some(idx) = self.valid_cached(self.cached_ki) {
            return Ok(idx);
        }
        let i_node: u32 = self.intern_i()?;
        let idx: u32 = self.allocate(K1, i_node, NIL)?;
        if self.checkpoint.is_none() {
            self.cached_ki = Some(idx);
            self.keep_root(idx);
        }
        Ok(idx)
    }

    /// The shared marker for the first argument of a boolean.
    pub fn intern_marker_t(&mut self) -> (r: Result<u32, AllocError>)
        requires
            old(self)@.wf(),
        ensures
            Heap::ran(old(self)@.intern_marker_t(), final(self)@, r),
            old(self)@.leads_to(final(self)@),
            r matches Ok(i) ==> final(self)@.live(i),
            r is Ok ==> old(self)@.builds(final(self)@, 1),
    {
        proof {
            crate::intern::lemma_intern_marker_t(self@);
            crate::heap::lemma_leads_refl(self@);
        }
        if let Some(idx) = self.valid_cached(self.cached_marker_t) {
            return Ok(idx);
        }
        let idx: u32 = self.allocate(MARKER_T, NIL, NIL)?;
        if self.checkpoint.is_none() {
            self.cached_marker_t = Some(idx);
            self.keep_root(idx);
        }
        Ok(idx)
    }

    /// The shared marker for the second argument of a boolean.
    pub fn intern_marker_f(&mut self) -> (r: Result<u32, AllocError>)
        requires
            old(self)@.wf(),
        ensures
            Heap::ran(old(self)@.intern_marker_f(), final(self)@, r),
            old(self)@.leads_to(final(self)@),
            r matches Ok(i) ==> final(self)@.live(i),
            r is Ok ==> old(self)@.builds(final(self)@, 1),
    {
        proof {
            crate::intern::lemma_intern_marker_f(self@);
            crate::heap::lemma_leads_refl(self@);
        }
        if let Some(idx) = self.valid_cached(self.cached_marker_f) {
            return Ok(idx);
        }
        let idx: u32 = self.allocate(MARKER_F, NIL, NIL)?;
        if self.checkpoint.is_none() {
            self.cached_marker_f = Some(idx);
            self.keep_root(idx);
        }
        Ok(idx)
    }

    /// Puts `n` times `S (K K)` in front of a node, where `kk` is `K K`.
    fn wrap_core(&mut self, kk: u32, core_node: u32, n: usize) -> (r: Result<u32, AllocError>)
        requires
            old(self)@.wf(),
            old(self)@.live(kk),
            old(self)@.live(core_node),
        ensures
            Heap::ran(old(self)@.wrap_core(kk, core_node, n as nat), final(self)@, r),
            old(self)@.leads_to(final(self)@),
            r matches Ok(i) ==> final(self)@.live(i),
    {
        let mut c: u32 = core_node;
        let mut k: usize = 0;
        proof {
            crate::heap::lemma_leads_refl(self@);
        }
        while k < n
            invariant
                k <= n,
                self@.wf(),
                self@.live(kk),
                self@.live(c),
                old(self)@.leads_to(self@),
                old(self)@.wrap_core(kk, core_node, n as nat) == self@.wrap_core(
                    kk,
                    c,
                    (n - k) as nat,
                ),
            decreases n - k,
        {
            c = self.allocate(S2, kk, c)?;
            k += 1;
        }
        Ok(c)
    }

    /// Puts `n` times `K` in front of a node.
    fn wrap_k(&mut self, x: u32, n: usize) -> (r: Result<u32, AllocError>)
        requires
            old(self)@.wf(),
            old(self)@.live(x),
        ensures
            Heap::ran(old(self)@.wrap_k(x, n as nat), final(self)@, r),
            old(self)@.leads_to(final(self)@),
            r matches Ok(i) ==> final(self)@.live(i),
    {
        let mut c: u32 = x;
        let mut k: usize = 0;
        proof {
            crate::heap::lemma_leads_refl(self@);
        }
        while k < n
            invariant
                k <= n,
                self@.wf(),
                self@.live(c),
                old(self)@.leads_to(self@),
                old(self)@.wrap_k(x, n as nat) == self@.wrap_k(c, (n - k) as nat),
            decreases n - k,
        {
            c = self.allocate(K1, c, NIL)?;
            k += 1;
        }
        Ok(c)
    }

    /// Builds the selector of the field `pos`.
    fn build_sel(&mut self, pos: usize) -> (r: Result<u32, AllocError>)
        requires
            old(self)@.wf(),
            pos < 5,
        ensures
            Heap::ran(old(self)@.build_sel(pos as int), final(self)@, r),
            old(self)@.leads_to(final(self)@),
    {
        let i_node: u32 = self.intern_i()?;
        let k_node: u32 = self.intern_k()?;
        let kk: u32 = self.allocate(K1, k_node, NIL)?;
        let c: u32 = self.wrap_core(kk, i_node, 4 - pos)?;
        self.wrap_k(c, pos)
    }

    /// The shared selector of the field `pos` of a five-tuple.
    pub fn intern_diamond_sel(&mut self, pos: usize) -> (r: Result<u32, AllocError>)
        requires
            old(self)@.wf(),
            pos < 5,
        ensures
            Heap::ran(old(self)@.intern_diamond_sel(pos as int), final(self)@, r),
            old(self)@.leads_to(final(self)@),
            r matches Ok(i) ==> final(self)@.live(i),
            r is Ok ==> old(self)@.builds(final(self)@, 7),
    {
        proof {
            crate::intern::lemma_intern_diamond_sel(self@, pos as int);
            crate::intern::lemma_build_sel(self@, pos as int);
            crate::heap::lemma_leads_refl(self@);
        }
        if let Some(idx) = self.valid_cached(self.cached_diamond_sels[pos]) {
            return Ok(idx);
        }
        let idx: u32 = self.build_sel(pos)?;
        if self.checkpoint.is_none() {
            self.cached_diamond_sels[pos] = Some(idx);
            self.keep_root(idx);
        }
        Ok(idx)
    }

    /// The node at the end of the indirections that start at `idx`.
    pub fn follow(&self, idx: u32) -> (r: u32)
        requires
            self@.wf(),
            self@.live(idx),
        ensures
            r == self@.follow(idx),
            self@.live(r),
            self@.tag(r) != IND,
            self@.term(r) == self@.term(idx),
    {
        proof {
            crate::graph::lemma_follow(self@.graph, idx, self@.graph.ranking());
        }
        let mut cur: u32 = idx;
        while self.nodes[cur as usize].tag == IND
            invariant
                self@.wf(),
                self@.live(cur),
                self@.follow(cur) == self@.follow(idx),
            decreases self@.graph.rank(cur),
        {
            assert(self@.graph.ranked(self@.graph.ranking()));
            cur = self.nodes[cur as usize].a;
        }
        cur
    }

    /// The node at the end of the indirections that start at `idx`; unless a
    /// checkpoint is set, they point there directly afterwards.
    pub fn follow_mut(&mut self, idx: u32) -> (root: u32)
        requires
            old(self)@.wf(),
            old(self)@.live(idx),
        ensures
            root == old(self)@.follow(idx),
            final(self)@ == old(self)@.chase(idx),
            final(self)@.wf(),
            final(self)@.live(root),
            old(self)@.leads_to(final(self)@),
    {
        let root: u32 = self.follow(idx);
        proof {
            crate::heap::lemma_chase(self@, idx);
            assert(self@.chase(idx).live(root));
        }
        if self.checkpoint.is_some() {
            return root;
        }
        let ghost g = self@.graph;
        let ghost rank = g.ranking();
        let mut cur: u32 = idx;
        proof {
            assert(g.ranked(rank));
            crate::graph::lemma_follow(g, idx, rank);
        }
        while cur != root
            invariant
                g == old(self)@.graph,
                g.wf(),
                g.ranked(rank),
                g.live(idx),
                g.live(cur),
                root == g.follow(idx),
                g.follow(cur) == root,
                self@.graph.nodes.len() == g.nodes.len(),
                self@ == (Heap { graph: self@.graph, ..old(self)@ }),
                self@.graph.free == g.free,
                forall|j: u32| #[trigger] g.on_chain(cur, j) ==> g.on_chain(idx, j),
                forall|j: u32|
                    j < g.nodes.len() ==> #[trigger] self@.graph.at(j) == if g.on_chain(idx, j)
                        && !g.on_chain(cur, j) {
                        Node { a: root, ..g.at(j) }
                    } else {
                        g.at(j)
                    },
            decreases rank[cur as int],
        {
            proof {
                crate::graph::lemma_follow(g, cur, rank);
                assert(self@.graph.at(cur) == g.at(cur)) by {
                    assert(g.tag(cur) == IND);
                    assert(g.on_chain(cur, cur));
                }
                let next = g.at(cur).a;
                crate::graph::lemma_off_chain(g, next, cur, rank);
                crate::graph::lemma_follow(g, next, rank);
                assert(g.on_chain(idx, cur));
                assert forall|j: u32| #[trigger] g.on_chain(next, j) implies g.on_chain(cur, j) by {}
            }
            let ghost before = self@.graph;
            let next: u32 = self.nodes[cur as usize].a;
            let n = self.nodes[cur as usize];
            self.nodes.set(cur as usize, Node { tag: n.tag, a: root, b: n.b });
            proof {
                assert forall|j: u32| j < g.nodes.len() implies #[trigger] self@.graph.at(j)
                    == if g.on_chain(idx, j) && !g.on_chain(next, j) {
                    Node { a: root, ..g.at(j) }
                } else {
                    g.at(j)
                } by {
                    assert(before.at(j) == if g.on_chain(idx, j) && !g.on_chain(cur, j) {
                        Node { a: root, ..g.at(j) }
                    } else {
                        g.at(j)
                    });
                    assert(g.on_chain(cur, j) == (j == cur || g.on_chain(next, j)));
                }
            }
            cur = next;
        }
        proof {
            crate::graph::lemma_follow(g, root, rank);
            assert forall|j: u32| !g.on_chain(root, j) by {}
            assert forall|j: int| 0 <= j < g.nodes.len() implies self@.graph.nodes[j]
                == g.compress(idx).nodes[j] by {
                assert(self@.graph.at(j as u32) == self@.graph.nodes[j]);
                assert(g.at(j as u32) == g.nodes[j]);
            }
            assert(self@.graph.nodes =~= g.compress(idx).nodes);
        }
        root
    }
}

} // verus!
