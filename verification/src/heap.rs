//! The state of an arena as a mathematical object, and the operations on it.
//!
//! An operation that allocates is a function to a [`Outcome`]: the state that
//! it leads to and its value, or the limit that it runs into.

use vstd::prelude::*;
use crate::graph::Graph;
use crate::node::{APP, I, IND, K, K1, MARKER_F, MARKER_T, Node, S2};
use crate::term::Term;

verus! {

/// The number of nodes that no arena exceeds.
pub const ARENA_HARD_LIMIT: usize = 1_900_000_000;

/// Why a node could not be allocated.
#[derive(Clone, Copy, PartialEq, Eq, Structural, Debug)]
pub enum AllocError {
    /// The arena holds [`ARENA_HARD_LIMIT`] nodes.
    ArenaLimit,
    /// The arena holds as many nodes as its failsafe admits.
    Failsafe,
}

/// What a computation on the arena leads to.
pub type Outcome<A> = Result<(Heap, A), AllocError>;

/// The nodes that are allocated once and then shared.
#[verifier::ext_equal]
pub struct Cached {
    pub k: Option<u32>,
    pub i: Option<u32>,
    pub ki: Option<u32>,
    pub marker_t: Option<u32>,
    pub marker_f: Option<u32>,
    pub sels: Seq<Option<u32>>,
}

impl Cached {
    /// What is shared in `self` is shared in `c`.
    pub open spec fn stays(self, c: Cached) -> bool {
        &&& self.k is Some ==> c.k == self.k
        &&& self.i is Some ==> c.i == self.i
        &&& self.ki is Some ==> c.ki == self.ki
        &&& self.marker_t is Some ==> c.marker_t == self.marker_t
        &&& self.marker_f is Some ==> c.marker_f == self.marker_f
        &&& forall|p: int|
            0 <= p < 5 ==> #[trigger] self.sels[p] is Some ==> c.sels[p] == self.sels[p]
    }
}

/// The state of an arena.
#[verifier::ext_equal]
pub struct Heap {
    pub graph: Graph,
    /// Nodes that every collection keeps.
    pub roots: Seq<u32>,
    pub cached: Cached,
    /// The failsafe: the number of nodes not to exceed, if it is enabled.
    pub limit: Option<usize>,
    /// The number of nodes when the checkpoint was set, if one is.
    pub checkpoint: Option<usize>,
    /// Nodes below the checkpoint with what they held before a change, in the
    /// order of the changes.
    pub saved: Seq<(u32, Node)>,
}

impl Graph {
    /// `S (K K) (... (S (K K) I))` with `n` times `S (K K)`.
    pub open spec fn is_core(self, i: u32, n: nat) -> bool
        decreases n,
    {
        if n == 0 {
            self.tag(i) == I
        } else {
            &&& self.tag(i) == S2
            &&& self.tag(self.at(i).a) == K1
            &&& self.tag(self.at(self.at(i).a).a) == K
            &&& self.is_core(self.at(i).b, (n - 1) as nat)
        }
    }

    /// `K (... (K c))` with `n` times `K`, where `c` is a core of size `m`.
    pub open spec fn is_wrapped_core(self, i: u32, n: nat, m: nat) -> bool
        decreases n,
    {
        if n == 0 {
            self.is_core(i, m)
        } else {
            self.tag(i) == K1 && self.is_wrapped_core(self.at(i).a, (n - 1) as nat, m)
        }
    }

    /// The selector of the field `pos` of a five-tuple.
    pub open spec fn is_sel(self, i: u32, pos: int) -> bool {
        self.is_wrapped_core(i, pos as nat, (4 - pos) as nat)
    }

    /// Every live node of `self` is live in `g`, and unless it is an
    /// application or an indirection it is the same there.
    pub open spec fn keeps(self, g: Graph) -> bool {
        forall|i: u32| #[trigger]
            self.live(i) ==> g.live(i) && (self.tag(i) != APP && self.tag(i) != IND ==> g.at(i)
                == self.at(i))
    }

    /// Every live node of `self` is live in `g` and the same there.
    pub open spec fn within(self, g: Graph) -> bool {
        forall|i: u32| #[trigger] self.live(i) ==> g.live(i) && g.at(i) == self.at(i)
    }
}

impl Heap {
    /// A shared node, if there is one, is live and kept.
    pub open spec fn pinned(self, c: Option<u32>) -> bool {
        c matches Some(i) ==> self.graph.live(i) && self.roots.contains(i)
    }

    /// A shared atom, if there is one, is pinned and has the tag.
    pub open spec fn pinned_atom(self, c: Option<u32>, tag: u8) -> bool {
        self.pinned(c) && (c matches Some(i) ==> self.graph.tag(i) == tag)
    }

    /// The shared nodes are what their names say.
    pub open spec fn cached_wf(self) -> bool {
        &&& self.pinned_atom(self.cached.k, K)
        &&& self.pinned_atom(self.cached.i, I)
        &&& self.pinned_atom(self.cached.ki, K1)
        &&& self.cached.ki matches Some(i) ==> self.graph.tag(self.graph.at(i).a) == I
        &&& self.pinned_atom(self.cached.marker_t, MARKER_T)
        &&& self.pinned_atom(self.cached.marker_f, MARKER_F)
        &&& self.cached.sels.len() == 5
        &&& forall|p: int|
            0 <= p < 5 ==> {
                &&& self.pinned(#[trigger] self.cached.sels[p])
                &&& self.cached.sels[p] matches Some(i) ==> self.graph.is_sel(i, p)
            }
    }

    pub open spec fn wf(self) -> bool {
        &&& self.graph.wf()
        &&& self.graph.nodes.len() <= ARENA_HARD_LIMIT
        &&& forall|k: int|
            0 <= k < self.roots.len() ==> !self.graph.free.contains(#[trigger] self.roots[k])
        &&& self.cached_wf()
        &&& self.limit matches Some(l) ==> 1 <= l <= ARENA_HARD_LIMIT
        &&& self.checkpoint matches Some(c) ==> c <= self.graph.nodes.len()
        &&& forall|k: int|
            0 <= k < self.saved.len() ==> (#[trigger] self.saved[k]).0 < self.graph.nodes.len()
    }

    pub open spec fn live(self, i: u32) -> bool {
        self.graph.live(i)
    }

    pub open spec fn at(self, i: u32) -> Node {
        self.graph.at(i)
    }

    pub open spec fn tag(self, i: u32) -> u8 {
        self.graph.tag(i)
    }

    pub open spec fn follow(self, i: u32) -> u32 {
        self.graph.follow(i)
    }

    pub open spec fn term(self, i: u32) -> Term {
        self.graph.term(i)
    }

    /// Both are live.
    pub open spec fn live2(self, i: u32, j: u32) -> bool {
        self.live(i) && self.live(j)
    }

    /// The number of nodes at which the arena refuses to grow.
    pub open spec fn cap(self) -> nat {
        match self.limit {
            Some(l) => if l < ARENA_HARD_LIMIT {
                l as nat
            } else {
                ARENA_HARD_LIMIT as nat
            },
            None => ARENA_HARD_LIMIT as nat,
        }
    }

    /// The number of nodes that can still be allocated.
    pub open spec fn room(self) -> nat {
        let reusable = if self.checkpoint is None {
            self.graph.free.len()
        } else {
            0
        };
        if self.graph.nodes.len() < self.cap() {
            (reusable + self.cap() - self.graph.nodes.len()) as nat
        } else {
            reusable
        }
    }

    /// Allocates a node: the last one of the free list, or a new one at the
    /// end. While a checkpoint is set the free list is left alone.
    pub open spec fn grow(self, n: Node) -> Outcome<u32> {
        let g = self.graph;
        if self.checkpoint is None && g.free.len() > 0 {
            let i = g.free.last();
            Ok(
                (
                    Heap {
                        graph: Graph {
                            nodes: g.nodes.update(i as int, n),
                            free: g.free.drop_last(),
                        },
                        ..self
                    },
                    i,
                ),
            )
        } else if g.nodes.len() >= ARENA_HARD_LIMIT {
            Err(AllocError::ArenaLimit)
        } else if self.limit matches Some(l) && g.nodes.len() >= l {
            Err(AllocError::Failsafe)
        } else {
            Ok(
                (
                    Heap { graph: Graph { nodes: g.nodes.push(n), free: g.free }, ..self },
                    g.nodes.len() as u32,
                ),
            )
        }
    }

    /// Records what a node below the checkpoint holds.
    pub open spec fn save(self, i: u32) -> Heap {
        match self.checkpoint {
            Some(c) => if i < c {
                Heap { saved: self.saved.push((i, self.graph.at(i))), ..self }
            } else {
                self
            },
            None => self,
        }
    }

    /// Replaces a node, after recording what it held.
    pub open spec fn overwrite(self, i: u32, n: Node) -> Heap {
        Heap { graph: self.graph.set(i, n), ..self.save(i) }
    }

    /// Follows indirections and, unless a checkpoint is set, lets those on
    /// the way point at the end.
    pub open spec fn chase(self, i: u32) -> Heap {
        if self.checkpoint is Some {
            self
        } else {
            Heap { graph: self.graph.compress(i), ..self }
        }
    }

    /// Adds a node to those that every collection keeps.
    pub open spec fn keep(self, i: u32) -> Heap {
        if self.roots.contains(i) {
            self
        } else {
            Heap { roots: self.roots.push(i), ..self }
        }
    }

    /// `h` is `self` with a new node `i`.
    pub open spec fn grew(self, h: Heap, i: u32, n: Node) -> bool {
        &&& h == (Heap { graph: h.graph, ..self })
        &&& !self.live(i)
        &&& h.live(i)
        &&& h.at(i) == n
        &&& h.term(i) == self.graph.read(n)
        &&& h.room() == self.room() - 1
        &&& forall|j: u32| #[trigger]
            self.live(j) ==> h.live(j) && h.at(j) == self.at(j) && h.term(j) == self.term(j)
                && h.follow(j) == self.follow(j)
    }

    /// `h` is `self` with at most `k` nodes more; what was live is as it was.
    pub open spec fn builds(self, h: Heap, k: nat) -> bool {
        &&& self.leads_to(h)
        &&& h.room() + k >= self.room()
        &&& forall|j: u32| #[trigger]
            self.live(j) ==> h.live(j) && h.at(j) == self.at(j) && h.term(j) == self.term(j)
                && h.follow(j) == self.follow(j)
    }

    /// What was first saved of a node.
    pub open spec fn first_saved(saved: Seq<(u32, Node)>, i: u32) -> Option<Node>
        decreases saved.len(),
    {
        if saved.len() == 0 {
            None
        } else if Heap::first_saved(saved.drop_last(), i) is Some {
            Heap::first_saved(saved.drop_last(), i)
        } else if saved.last().0 == i {
            Some(saved.last().1)
        } else {
            None
        }
    }

    /// What the node held when the checkpoint was set.
    pub open spec fn origin(self, i: u32) -> Node {
        match Heap::first_saved(self.saved, i) {
            Some(n) => n,
            None => self.graph.at(i),
        }
    }

    /// The nodes after the changes that were saved are undone, the last one
    /// first.
    pub open spec fn undo(nodes: Seq<Node>, saved: Seq<(u32, Node)>) -> Seq<Node>
        decreases saved.len(),
    {
        if saved.len() == 0 {
            nodes
        } else {
            Heap::undo(
                nodes.update(saved.last().0 as int, saved.last().1),
                saved.drop_last(),
            )
        }
    }

    /// The nodes below the checkpoint can still be restored.
    pub open spec fn restorable(self, h: Heap) -> bool {
        self.checkpoint matches Some(c) ==> forall|i: u32| i < c ==> #[trigger] h.origin(i)
            == self.origin(i)
    }

    /// What reduction and allocation may do to an arena: nodes stay live, and
    /// their expressions are reduced.
    #[verifier::opaque]
    pub open spec fn leads_to(self, h: Heap) -> bool {
        &&& h.wf()
        &&& self.graph.keeps(h.graph)
        &&& h.limit == self.limit
        &&& h.checkpoint == self.checkpoint
        &&& h.room() <= self.room()
        &&& self.roots.is_prefix_of(h.roots)
        &&& self.cached.stays(h.cached)
        &&& self.restorable(h)
        &&& forall|i: u32| #[trigger]
            self.graph.live(i) ==> self.graph.term(i).reduces(h.graph.term(i))
    }

    /// The function returned `r` and left the arena in the state `h`, as the
    /// outcome `s` says.
    pub open spec fn ran<A>(s: Outcome<A>, h: Heap, r: Result<A, AllocError>) -> bool {
        match r {
            Ok(x) => s == Ok::<(Heap, A), AllocError>((h, x)),
            Err(e) => s == Err::<(Heap, A), AllocError>(e),
        }
    }
}

pub proof fn lemma_keeps_core(g: Graph, g1: Graph, i: u32, n: nat)
    requires
        g.wf(),
        g.keeps(g1),
        g.live(i),
        g.is_core(i, n),
    ensures
        g1.is_core(i, n),
    decreases n,
{
    if n > 0 {
        assert(g.live(g.at(i).a));
        assert(g.live(g.at(g.at(i).a).a));
        lemma_keeps_core(g, g1, g.at(i).b, (n - 1) as nat);
    }
}

pub proof fn lemma_keeps_wrapped(g: Graph, g1: Graph, i: u32, n: nat, m: nat)
    requires
        g.wf(),
        g.keeps(g1),
        g.live(i),
        g.is_wrapped_core(i, n, m),
    ensures
        g1.is_wrapped_core(i, n, m),
    decreases n,
{
    if n > 0 {
        lemma_keeps_wrapped(g, g1, g.at(i).a, (n - 1) as nat, m);
    } else {
        lemma_keeps_core(g, g1, i, m);
    }
}

/// A change that keeps the graph's nodes keeps the shared nodes valid.
pub proof fn lemma_keeps_cached(h: Heap, h1: Heap)
    requires
        h.wf(),
        h.graph.keeps(h1.graph),
        h1.roots == h.roots,
        h1.cached == h.cached,
    ensures
        h1.cached_wf(),
{
    assert forall|p: int| 0 <= p < 5 implies h1.pinned(#[trigger] h1.cached.sels[p]) && (
    h1.cached.sels[p] matches Some(i) ==> h1.graph.is_sel(i, p)) by {
        assert(h.pinned(h.cached.sels[p]));
        match h.cached.sels[p] {
            Some(i) => lemma_keeps_wrapped(h.graph, h1.graph, i, p as nat, (4 - p) as nat),
            None => {},
        }
    }
    if let Some(i) = h.cached.ki {
        assert(h.graph.live(h.graph.at(i).a));
    }
}

/// Allocation: the new node was not live, what was live is as it was, and
/// there is room for one node less. A rank above those of the children serves
/// for the new node.
pub proof fn lemma_grow(h: Heap, n: Node, rank: Seq<nat>, v: nat) -> (rank1: Seq<nat>)
    requires
        h.wf(),
        h.graph.ranked(rank),
        forall|c: u32| #[trigger] n.child(c) ==> h.live(c) && rank[c as int] < v,
    ensures
        h.grow(n) is Ok <==> h.room() > 0,
        h.grow(n) matches Ok((h1, i)) ==> {
            &&& h1.wf()
            &&& h1.graph.ranked(rank1)
            &&& rank1[i as int] == v
            &&& forall|j: u32| #[trigger] h.live(j) ==> rank1[j as int] == rank[j as int]
            &&& !h.live(i)
            &&& h1.live(i)
            &&& h1.graph.at(i) == n
            &&& h.graph.within(h1.graph)
            &&& forall|j: u32| #[trigger] h1.live(j) ==> h.live(j) || j == i
            &&& h1.room() == h.room() - 1
            &&& h1 == (Heap { graph: h1.graph, ..h })
        },
{
    let g = h.graph;
    let i: u32 = if h.checkpoint is None && g.free.len() > 0 {
        g.free.last()
    } else {
        g.nodes.len() as u32
    };
    let rank1 = if i < rank.len() {
        rank.update(i as int, v)
    } else {
        rank.push(v)
    };
    if h.grow(n) is Ok {
        let h1 = h.grow(n)->Ok_0.0;
        let g1 = h1.graph;
        if h.checkpoint is None && g.free.len() > 0 {
            assert(g.free.contains(i)) by {
                assert(g.free[g.free.len() - 1] == i);
            }
            assert(!g1.free.contains(i)) by {
                if g1.free.contains(i) {
                    let k = choose|k: int| 0 <= k < g1.free.len() && g1.free[k] == i;
                    assert(g.free[k] == g.free[g.free.len() - 1]);
                }
            }
            assert forall|j: u32| j != i implies g1.free.contains(j) == g.free.contains(j) by {
                if g.free.contains(j) {
                    let k = choose|k: int| 0 <= k < g.free.len() && g.free[k] == j;
                    assert(g1.free[k] == j);
                }
                if g1.free.contains(j) {
                    let k = choose|k: int| 0 <= k < g1.free.len() && g1.free[k] == j;
                    assert(g.free[k] == j);
                }
            }
        } else {
            assert(!g.free.contains(i)) by {
                if g.free.contains(i) {
                    let k = choose|k: int| 0 <= k < g.free.len() && g.free[k] == i;
                }
            }
        }
        assert forall|j: u32| #[trigger] g.live(j) implies g1.live(j) && g1.at(j) == g.at(j) by {}
        assert(n.child(n.a) || !n.has_a());
        assert(n.child(n.b) || !n.has_b());
        assert(g1.at(i) == n);
        assert forall|j: u32| #[trigger] g1.live(j) implies g.live(j) || j == i by {}
        assert forall|j: u32| #[trigger] g1.live(j) implies {
            &&& g1.at(j).has_a() ==> g1.live(g1.at(j).a) && rank1[g1.at(j).a as int]
                < rank1[j as int]
            &&& g1.at(j).has_b() ==> g1.live(g1.at(j).b) && rank1[g1.at(j).b as int]
                < rank1[j as int]
        } by {
            if j != i {
                assert(g.live(j));
                assert(g1.at(j) == g.at(j));
                if g.at(j).has_a() {
                    assert(g.live(g.at(j).a));
                }
                if g.at(j).has_b() {
                    assert(g.live(g.at(j).b));
                }
            }
        }
        assert(g1.linked());
        assert(g1.ranked(rank1));
        assert(g1.wf());
        lemma_keeps_cached(h, h1);
    }
    rank1
}

pub proof fn lemma_leads_refl(h: Heap)
    requires
        h.wf(),
    ensures
        h.leads_to(h),
{
    reveal(Heap::leads_to);
    assert forall|i: u32| #[trigger] h.graph.live(i) implies h.graph.term(i).reduces(
        h.graph.term(i),
    ) by {
        crate::term::lemma_reduces_refl(h.graph.term(i));
    }
}

pub broadcast proof fn lemma_leads_trans(h: Heap, h1: Heap, h2: Heap)
    requires
        #[trigger] h.leads_to(h1),
        #[trigger] h1.leads_to(h2),
    ensures
        h.leads_to(h2),
{
    reveal(Heap::leads_to);
    assert forall|i: u32| #[trigger] h.graph.live(i) implies h.graph.term(i).reduces(
        h2.graph.term(i),
    ) by {
        assert(h1.graph.live(i));
        crate::term::lemma_reduces_trans(h.graph.term(i), h1.graph.term(i), h2.graph.term(i));
    }
    assert forall|i: u32| #[trigger] h.graph.live(i) implies h2.graph.live(i) && (h.graph.tag(i)
        != APP && h.graph.tag(i) != IND ==> h2.graph.at(i) == h.graph.at(i)) by {
        assert(h1.graph.live(i));
    }
    assert(h.roots.is_prefix_of(h2.roots)) by {
        assert(h1.roots =~= h2.roots.take(h1.roots.len() as int));
        assert(h.roots =~= h2.roots.take(h.roots.len() as int));
    }
    assert(h.restorable(h2)) by {
        if let Some(c) = h.checkpoint {
            assert forall|i: u32| i < c implies #[trigger] h2.origin(i) == h.origin(i) by {
                assert(h1.origin(i) == h.origin(i));
            }
        }
    }
}

/// The arena stays well formed, with the same limits.
pub broadcast proof fn lemma_leads_wf(h: Heap, h1: Heap)
    requires
        #[trigger] h.leads_to(h1),
    ensures
        h1.wf(),
        h1.limit == h.limit,
        h1.checkpoint == h.checkpoint,
        h1.room() <= h.room(),
{
    reveal(Heap::leads_to);
}

/// Live nodes stay live.
pub broadcast proof fn lemma_leads_live(h: Heap, h1: Heap, i: u32)
    requires
        #[trigger] h.leads_to(h1),
        #[trigger] h.live(i),
    ensures
        h1.live(i),
{
    reveal(Heap::leads_to);
}

/// A node stands for what its expression reduces to; unless it is an
/// application or an indirection it is the same.
pub proof fn lemma_leads_node(h: Heap, h1: Heap, i: u32)
    requires
        h.leads_to(h1),
        h.live(i),
    ensures
        h.term(i).reduces(h1.term(i)),
        h.tag(i) != APP && h.tag(i) != IND ==> h1.at(i) == h.at(i),
{
    reveal(Heap::leads_to);
}

pub broadcast group group_leads {
    lemma_leads_trans,
    lemma_leads_wf,
    lemma_leads_live,
}

/// Replacing a node after saving it keeps the arena restorable.
pub proof fn lemma_overwrite_restorable(h: Heap, p: u32, n: Node)
    requires
        h.wf(),
        h.live(p),
    ensures
        h.restorable(h.overwrite(p, n)),
{
    let h1 = h.overwrite(p, n);
    if let Some(c) = h.checkpoint {
        assert forall|i: u32| i < c implies #[trigger] h1.origin(i) == h.origin(i) by {
            if p < c {
                assert(h1.saved.drop_last() =~= h.saved);
            }
        }
    }
}

/// Chasing indirections changes neither the expressions nor the ends of
/// indirections.
pub proof fn lemma_chase(h: Heap, i: u32)
    requires
        h.wf(),
        h.live(i),
    ensures
        h.chase(i).wf(),
        h.chase(i) == (Heap { graph: h.chase(i).graph, ..h }),
        forall|rank: Seq<nat>| #[trigger]
            h.graph.ranked(rank) ==> h.chase(i).graph.ranked(rank),
        forall|j: u32| #[trigger] h.chase(i).live(j) == h.live(j),
        forall|j: u32|
            #![trigger h.chase(i).at(j)]
            h.live(j) ==> {
                &&& h.chase(i).at(j).tag == h.at(j).tag
                &&& h.chase(i).at(j).b == h.at(j).b
                &&& h.tag(j) != IND ==> h.chase(i).at(j) == h.at(j)
            },
        forall|j: u32| #[trigger] h.live(j) ==> h.chase(i).term(j) == h.term(j),
        forall|j: u32| #[trigger] h.live(j) ==> h.chase(i).follow(j) == h.follow(j),
        h.leads_to(h.chase(i)),
        h.chase(i).room() == h.room(),
{
    reveal(Heap::leads_to);
    assert forall|j: u32| #[trigger] h.graph.live(j) implies h.graph.term(j).reduces(
        h.graph.term(j),
    ) by {
        crate::term::lemma_reduces_refl(h.graph.term(j));
    }
    if h.checkpoint is None {
        let h1 = h.chase(i);
        crate::graph::lemma_compress(h.graph, i);
        assert forall|j: u32| #[trigger] h.graph.live(j) implies h1.graph.live(j) && (
        h.graph.tag(j) != APP && h.graph.tag(j) != IND ==> h1.graph.at(j) == h.graph.at(j)) by {
            assert(h.graph.compress(i).live(j) == h.graph.live(j));
        }
        lemma_keeps_cached(h, h1);
    }
}

/// A node that was freed is used before the arena grows, the one that was freed last
/// first; not so while there is a checkpoint. The arena grows by one node at its end.
/// It is refused only where the arena would have to grow beyond what is allowed, and
/// then with the reason.
pub proof fn lemma_limits(h: Heap, n: Node)
    requires
        h.wf(),
    ensures
        ({
            let full = h.graph.nodes.len() >= 1_900_000_000;
            let over = h.limit matches Some(l) && h.graph.nodes.len() >= l;
            let reuses = h.checkpoint is None && h.graph.free.len() > 0;
            &&& h.grow(n) is Err <==> !reuses && (full || over)
            &&& h.grow(n) matches Err(e) ==> e == if full {
                AllocError::ArenaLimit
            } else {
                AllocError::Failsafe
            }
            &&& h.grow(n) matches Ok((h1, i)) ==> if reuses {
                &&& h1.graph.nodes.len() == h.graph.nodes.len()
                &&& h.graph.free == h1.graph.free.push(i)
            } else {
                &&& h1.graph.nodes == h.graph.nodes.push(n)
                &&& h1.graph.free == h.graph.free
                &&& i == h.graph.nodes.len()
            }
        }),
{
    if let Ok((h1, i)) = h.grow(n) {
        if h.checkpoint is None && h.graph.free.len() > 0 {
            assert(h.graph.free =~= h1.graph.free.push(i));
        }
    }
}

/// Allocation, with the expressions: those of live nodes stay, and the new
/// node stands for what its content says.
pub proof fn lemma_grow_terms(h: Heap, n: Node, rank: Seq<nat>, v: nat) -> (rank1: Seq<nat>)
    requires
        h.wf(),
        h.graph.ranked(rank),
        forall|c: u32| #[trigger] n.child(c) ==> h.live(c) && rank[c as int] < v,
    ensures
        h.grow(n) is Ok <==> h.room() > 0,
        h.grow(n) matches Ok((h1, i)) ==> {
            &&& h.leads_to(h1)
            &&& h1.graph.ranked(rank1)
            &&& rank1[i as int] == v
            &&& forall|j: u32| #[trigger] h.live(j) ==> rank1[j as int] == rank[j as int]
            &&& h.grew(h1, i, n)
        },
{
    reveal(Heap::leads_to);
    let rank1 = lemma_grow(h, n, rank, v);
    if let Ok((h1, i)) = h.grow(n) {
        assert forall|j: u32| #[trigger] h.live(j) implies h1.term(j) == h.term(j) && h1.follow(j)
            == h.follow(j) by {
            crate::graph::lemma_frame(h.graph, h1.graph, j, rank);
        }
        assert forall|j: u32| #[trigger] h.graph.live(j) implies h.graph.term(j).reduces(
            h1.graph.term(j),
        ) by {
            assert(h.live(j));
            crate::term::lemma_reduces_refl(h.graph.term(j));
        }
        assert(n.child(n.a) || !n.has_a());
        assert(n.child(n.b) || !n.has_b());
        assert(h1.term(i) == h.graph.read(n));
    }
    rank1
}

/// Allocation, without regard to ranks.
pub proof fn lemma_alloc(h: Heap, n: Node)
    requires
        h.wf(),
        forall|c: u32| #[trigger] n.child(c) ==> h.live(c),
    ensures
        h.grow(n) is Ok <==> h.room() > 0,
        h.grow(n) matches Ok((h1, i)) ==> h.leads_to(h1) && h.grew(h1, i, n),
{
    let rank = h.graph.ranking();
    assert(h.graph.ranked(rank));
    let v: nat = 1 + (if n.has_a() {
        rank[n.a as int]
    } else {
        0
    }) + (if n.has_b() {
        rank[n.b as int]
    } else {
        0
    });
    let _ = lemma_grow_terms(h, n, rank, v);
}

pub proof fn lemma_builds_refl(h: Heap)
    requires
        h.wf(),
    ensures
        h.builds(h, 0),
{
    lemma_leads_refl(h);
}

pub proof fn lemma_builds_trans(h: Heap, h1: Heap, h2: Heap, j: nat, k: nat)
    requires
        h.builds(h1, j),
        h1.builds(h2, k),
    ensures
        h.builds(h2, j + k),
{
    lemma_leads_trans(h, h1, h2);
    assert forall|i: u32| #[trigger] h.live(i) implies h2.live(i) && h2.at(i) == h.at(i) && h2.term(
        i,
    ) == h.term(i) && h2.follow(i) == h.follow(i) by {
        assert(h1.live(i));
    }
}

/// Replacing an application by a node that its expression reduces to in one
/// parallel reduction.
pub proof fn lemma_overwrite(h: Heap, p: u32, n: Node, rank: Seq<nat>)
    requires
        h.wf(),
        h.graph.ranked(rank),
        h.live(p),
        h.tag(p) == APP,
        forall|c: u32| #[trigger] n.child(c) ==> h.live(c) && rank[c as int] < rank[p as int],
        h.term(p).par(h.graph.read(n)),
    ensures
        h.leads_to(h.overwrite(p, n)),
        h.overwrite(p, n).graph.ranked(rank),
        forall|j: u32| #[trigger] h.overwrite(p, n).live(j) == h.live(j),
        forall|j: u32| h.live(j) && j != p ==> #[trigger] h.overwrite(p, n).at(j) == h.at(j),
        h.overwrite(p, n).at(p) == n,
        h.overwrite(p, n).term(p) == h.graph.read(n),
        h.overwrite(p, n).room() == h.room(),
        forall|i: u32| #[trigger] h.live(i) ==> h.term(i).par(h.overwrite(p, n).term(i)),
        h.term(p) == h.graph.read(n) ==> forall|i: u32| #[trigger]
            h.live(i) ==> h.overwrite(p, n).term(i) == h.term(i),
        forall|i: u32| #[trigger]
            h.live(i) && rank[i as int] < rank[p as int] ==> h.overwrite(p, n).term(i) == h.term(i),
        forall|i: u32| #[trigger]
            h.live(i) ==> h.overwrite(p, n).follow(i) == if h.follow(i) != p {
                h.follow(i)
            } else if n.tag == IND {
                h.follow(n.a)
            } else {
                p
            },
{
    reveal(Heap::leads_to);
    let h1 = h.overwrite(p, n);
    crate::graph::lemma_set(h.graph, p, n, rank);
    crate::graph::lemma_set_terms(h.graph, p, n, rank);
    lemma_overwrite_restorable(h, p, n);
    assert forall|j: u32| #[trigger] h1.live(j) == h.live(j) by {
        assert(h.graph.set(p, n).live(j) == h.graph.live(j));
    }
    assert forall|j: u32| h.live(j) && j != p implies #[trigger] h1.at(j) == h.at(j) by {
        assert(h.graph.set(p, n).at(j) == h.graph.at(j));
    }
    assert forall|i: u32| #[trigger] h.live(i) implies h1.follow(i) == if h.follow(i) != p {
        h.follow(i)
    } else if n.tag == IND {
        h.follow(n.a)
    } else {
        p
    } by {
        crate::graph::lemma_set_follow(h.graph, p, n, rank, i);
    }
    assert forall|i: u32| #[trigger] h.graph.live(i) implies h.graph.term(i).reduces(
        h1.graph.term(i),
    ) by {
        crate::term::lemma_par_reduces(h.graph.term(i), h1.graph.term(i));
    }
    assert forall|i: u32| #[trigger] h.graph.live(i) implies h1.graph.live(i) && (h.graph.tag(i)
        != APP && h.graph.tag(i) != IND ==> h1.graph.at(i) == h.graph.at(i)) by {
        assert(h1.live(i) == h.live(i));
        if i != p {
            assert(h1.at(i) == h.at(i));
        }
    }
    lemma_keeps_cached(h, h1);
}

/// A change of the roots that loses none keeps the arena well formed.
pub proof fn lemma_keep(h: Heap, i: u32)
    requires
        h.wf(),
        !h.graph.free.contains(i),
    ensures
        h.leads_to(h.keep(i)),
        h.keep(i).roots.contains(i),
{
    reveal(Heap::leads_to);
    let h1 = h.keep(i);
    lemma_leads_refl(h);
    if !h.roots.contains(i) {
        assert(h1.roots[h1.roots.len() - 1] == i);
        assert forall|j: u32| h.roots.contains(j) implies h1.roots.contains(j) by {
            let k = choose|k: int| 0 <= k < h.roots.len() && h.roots[k] == j;
            assert(h1.roots[k] == j);
        }
        assert forall|p: int| 0 <= p < 5 implies h1.pinned(#[trigger] h1.cached.sels[p]) && (
        h1.cached.sels[p] matches Some(s) ==> h1.graph.is_sel(s, p)) by {
            assert(h.pinned(h.cached.sels[p]));
        }
        assert(h.roots =~= h1.roots.take(h.roots.len() as int));
        assert(h1.wf());
    }
}

proof fn lemma_undo(nodes: Seq<Node>, saved: Seq<(u32, Node)>, i: u32)
    requires
        i < nodes.len(),
        forall|k: int| 0 <= k < saved.len() ==> (#[trigger] saved[k]).0 < nodes.len(),
    ensures
        Heap::undo(nodes, saved).len() == nodes.len(),
        Heap::undo(nodes, saved)[i as int] == match Heap::first_saved(saved, i) {
            Some(n) => n,
            None => nodes[i as int],
        },
    decreases saved.len(),
{
    if saved.len() > 0 {
        assert(saved[saved.len() - 1].0 < nodes.len());
        lemma_undo(nodes.update(saved.last().0 as int, saved.last().1), saved.drop_last(), i);
    }
}

/// Undoing what was saved since a checkpoint restores the nodes below it,
/// whatever was evaluated in between.
pub proof fn lemma_restore(h: Heap, h1: Heap, c: usize)
    requires
        h.wf(),
        h.checkpoint == Some(c),
        h.saved.len() == 0,
        h.leads_to(h1),
    ensures
        h1.graph.nodes.len() >= c,
        Heap::undo(h1.graph.nodes, h1.saved).take(c as int) =~= h.graph.nodes.take(c as int),
{
    reveal(Heap::leads_to);
    let nodes = Heap::undo(h1.graph.nodes, h1.saved);
    assert forall|i: int| 0 <= i < c implies #[trigger] nodes[i] == h.graph.nodes[i] by {
        lemma_undo(h1.graph.nodes, h1.saved, i as u32);
        assert(h1.origin(i as u32) == h.origin(i as u32));
    }
    if c > 0 {
        lemma_undo(h1.graph.nodes, h1.saved, 0);
    }
    assert(nodes.take(c as int) =~= h.graph.nodes.take(c as int));
}

/// Multiplying the ranks leaves them a ranking.
pub proof fn lemma_rank_scale(g: Graph, rank: Seq<nat>, c: nat) -> (rank1: Seq<nat>)
    requires
        g.ranked(rank),
        c > 0,
    ensures
        rank1.len() == rank.len(),
        forall|i: int| 0 <= i < rank.len() ==> #[trigger] rank1[i] == c * rank[i],
        g.wf() ==> g.ranked(rank1),
{
    let rank1 = Seq::new(rank.len(), |i: int| c * rank[i]);
    assert forall|i: int, j: int| 0 <= i < rank.len() && 0 <= j < rank.len() && rank[i]
        < rank[j] implies #[trigger] rank1[i] < #[trigger] rank1[j] by {
        assert(c * rank[i] < c * rank[j]) by (nonlinear_arith)
            requires
                rank[i] < rank[j],
                c > 0,
        ;
    }
    if g.wf() {
        assert forall|i: u32| #[trigger] g.live(i) implies {
            &&& g.at(i).has_a() ==> rank1[g.at(i).a as int] < rank1[i as int]
            &&& g.at(i).has_b() ==> rank1[g.at(i).b as int] < rank1[i as int]
        } by {
            if g.at(i).has_a() {
                assert(g.live(g.at(i).a));
            }
            if g.at(i).has_b() {
                assert(g.live(g.at(i).b));
            }
        }
    }
    rank1
}

} // verus!
