//! The graph as a mathematical object: which nodes are live, where
//! indirections lead, and which expression a node stands for.

use vstd::prelude::*;
use crate::node::{APP, IND, K, K1, Node, S, S1, S2};
use crate::term::Term;

verus! {

/// The nodes of an arena together with the list of those that are free.
#[verifier::ext_equal]
pub struct Graph {
    pub nodes: Seq<Node>,
    pub free: Seq<u32>,
}

impl Graph {
    /// The node exists and is not on the free list.
    pub open spec fn live(self, i: u32) -> bool {
        i < self.nodes.len() && !self.free.contains(i)
    }

    pub open spec fn at(self, i: u32) -> Node {
        self.nodes[i as int]
    }

    pub open spec fn tag(self, i: u32) -> u8 {
        self.at(i).tag
    }

    /// The children of live nodes are live.
    pub open spec fn linked(self) -> bool {
        forall|i: u32| #[trigger]
            self.live(i) ==> {
                &&& self.at(i).has_a() ==> self.live(self.at(i).a)
                &&& self.at(i).has_b() ==> self.live(self.at(i).b)
            }
    }

    /// Every live node ranks above its children.
    pub open spec fn ranked(self, rank: Seq<nat>) -> bool {
        &&& rank.len() == self.nodes.len()
        &&& forall|i: u32| #[trigger]
            self.live(i) ==> {
                &&& self.at(i).has_a() ==> rank[self.at(i).a as int] < rank[i as int]
                &&& self.at(i).has_b() ==> rank[self.at(i).b as int] < rank[i as int]
            }
    }

    pub open spec fn acyclic(self) -> bool {
        exists|rank: Seq<nat>| self.ranked(rank)
    }

    /// The free list names existing nodes, each once; the live nodes form an
    /// acyclic graph.
    pub open spec fn wf(self) -> bool {
        &&& self.nodes.len() <= u32::MAX
        &&& forall|k: int| 0 <= k < self.free.len() ==> #[trigger] self.free[k] < self.nodes.len()
        &&& self.free.no_duplicates()
        &&& self.linked()
        &&& self.acyclic()
    }

    /// Some ranking of a well-formed graph.
    pub open spec fn ranking(self) -> Seq<nat> {
        choose|rank: Seq<nat>| self.ranked(rank)
    }

    pub open spec fn rank(self, i: u32) -> nat {
        self.ranking()[i as int]
    }

    /// The node at the end of the indirections that start at `i`.
    pub open spec fn follow(self, i: u32) -> u32
        decreases self.rank(i),
        when self.wf() && self.live(i)
    {
        if self.tag(i) == IND {
            self.follow(self.at(i).a)
        } else {
            i
        }
    }

    /// `j` is an indirection on the way from `i` to the end.
    pub open spec fn on_chain(self, i: u32, j: u32) -> bool
        decreases self.rank(i),
        when self.wf() && self.live(i)
    {
        self.tag(i) == IND && (i == j || self.on_chain(self.at(i).a, j))
    }

    /// The expression that a node stands for.
    pub open spec fn term(self, i: u32) -> Term
        decreases self.rank(i),
        when self.wf() && self.live(i)
    {
        let n = self.at(i);
        if n.tag == IND {
            self.term(n.a)
        } else if n.tag == APP {
            Term::app(self.term(n.a), self.term(n.b))
        } else if n.tag == S1 {
            Term::app(Term::Atom(S), self.term(n.a))
        } else if n.tag == S2 {
            Term::app(Term::app(Term::Atom(S), self.term(n.a)), self.term(n.b))
        } else if n.tag == K1 {
            Term::app(Term::Atom(K), self.term(n.a))
        } else {
            Term::Atom(n.tag)
        }
    }

    /// The expression that a node with content `n` would stand for.
    pub open spec fn read(self, n: Node) -> Term {
        if n.tag == IND {
            self.term(n.a)
        } else if n.tag == APP {
            Term::app(self.term(n.a), self.term(n.b))
        } else if n.tag == S1 {
            Term::app(Term::Atom(S), self.term(n.a))
        } else if n.tag == S2 {
            Term::app2(Term::Atom(S), self.term(n.a), self.term(n.b))
        } else if n.tag == K1 {
            Term::app(Term::Atom(K), self.term(n.a))
        } else {
            Term::Atom(n.tag)
        }
    }

    /// The graph in which every indirection on the way from `i` points at the
    /// end directly.
    pub open spec fn compress(self, i: u32) -> Graph {
        Graph {
            nodes: Seq::new(
                self.nodes.len(),
                |j: int|
                    if self.on_chain(i, j as u32) {
                        Node { a: self.follow(i), ..self.nodes[j] }
                    } else {
                        self.nodes[j]
                    },
            ),
            free: self.free,
        }
    }

    /// The graph with one node replaced.
    pub open spec fn set(self, i: u32, n: Node) -> Graph {
        Graph { nodes: self.nodes.update(i as int, n), free: self.free }
    }
}

/// Following indirections ends at a live node that is none, stands for the
/// same expression, and does not rank higher.
pub proof fn lemma_follow(g: Graph, i: u32, rank: Seq<nat>)
    requires
        g.wf(),
        g.live(i),
        g.ranked(rank),
    ensures
        g.live(g.follow(i)),
        g.tag(g.follow(i)) != IND,
        g.follow(g.follow(i)) == g.follow(i),
        g.term(g.follow(i)) == g.term(i),
        rank[g.follow(i) as int] <= rank[i as int],
        g.tag(i) == IND ==> rank[g.follow(i) as int] < rank[i as int],
        g.tag(i) != IND ==> g.follow(i) == i,
    decreases rank[i as int],
{
    if g.tag(i) == IND {
        lemma_follow(g, g.at(i).a, rank);
    }
}

/// What lies on the way from `i` are live indirections with the same end.
proof fn lemma_on_chain(g: Graph, i: u32, j: u32, rank: Seq<nat>)
    requires
        g.wf(),
        g.live(i),
        g.ranked(rank),
        g.on_chain(i, j),
    ensures
        g.live(j),
        g.tag(j) == IND,
        g.follow(j) == g.follow(i),
        rank[g.follow(i) as int] < rank[j as int],
    decreases rank[i as int],
{
    lemma_follow(g, i, rank);
    if i != j {
        lemma_on_chain(g, g.at(i).a, j, rank);
    }
}

/// A node that does not rank lower does not lie on the way from `i`.
pub proof fn lemma_off_chain(g: Graph, i: u32, j: u32, rank: Seq<nat>)
    requires
        g.wf(),
        g.live(i),
        g.ranked(rank),
        rank[i as int] < rank[j as int],
    ensures
        !g.on_chain(i, j),
    decreases rank[i as int],
{
    if g.tag(i) == IND {
        lemma_off_chain(g, g.at(i).a, j, rank);
    }
}

/// Two graphs that agree on the live nodes of the first stand for the same
/// expressions there.
pub proof fn lemma_frame(g: Graph, g1: Graph, i: u32, rank: Seq<nat>)
    requires
        g.wf(),
        g1.wf(),
        g.ranked(rank),
        forall|j: u32| #[trigger] g.live(j) ==> g1.live(j) && g1.at(j) == g.at(j),
        g.live(i),
    ensures
        g1.term(i) == g.term(i),
        g1.follow(i) == g.follow(i),
    decreases rank[i as int],
{
    let n = g.at(i);
    assert(g1.at(i) == n);
    if n.has_a() {
        lemma_frame(g, g1, n.a, rank);
    }
    if n.has_b() {
        lemma_frame(g, g1, n.b, rank);
    }
}

/// Replacing a live node by one whose children rank lower keeps the graph
/// well formed.
pub proof fn lemma_set(g: Graph, p: u32, n: Node, rank: Seq<nat>)
    requires
        g.wf(),
        g.ranked(rank),
        g.live(p),
        forall|c: u32| #[trigger] n.child(c) ==> g.live(c) && rank[c as int] < rank[p as int],
    ensures
        g.set(p, n).wf(),
        g.set(p, n).ranked(rank),
        forall|j: u32| #[trigger] g.set(p, n).live(j) == g.live(j),
        forall|j: u32| g.live(j) && j != p ==> #[trigger] g.set(p, n).at(j) == g.at(j),
        g.set(p, n).at(p) == n,
{
    let g1 = g.set(p, n);
    assert(n.child(n.a) || !n.has_a());
    assert(n.child(n.b) || !n.has_b());
    assert forall|j: u32| #[trigger] g1.live(j) implies g.live(j) && (j != p ==> g1.at(j)
        == g.at(j)) by {}
    assert(g1.ranked(rank));
}

/// Below the replaced node nothing changes.
proof fn lemma_set_below(g: Graph, p: u32, n: Node, rank: Seq<nat>, i: u32)
    requires
        g.wf(),
        g.ranked(rank),
        g.live(p),
        g.set(p, n).wf(),
        g.live(i),
        rank[i as int] < rank[p as int],
    ensures
        g.set(p, n).term(i) == g.term(i),
        g.set(p, n).follow(i) == g.follow(i),
    decreases rank[i as int],
{
    let g1 = g.set(p, n);
    assert(g1.live(i));
    assert(g1.at(i) == g.at(i));
    if g.at(i).has_a() {
        lemma_set_below(g, p, n, rank, g.at(i).a);
    }
    if g.at(i).has_b() {
        lemma_set_below(g, p, n, rank, g.at(i).b);
    }
}

proof fn lemma_set_term_at(g: Graph, p: u32, n: Node, rank: Seq<nat>, i: u32)
    requires
        g.wf(),
        g.ranked(rank),
        g.live(p),
        forall|c: u32| #[trigger] n.child(c) ==> g.live(c) && rank[c as int] < rank[p as int],
        g.term(p).par(g.read(n)),
        g.live(i),
    ensures
        g.term(i).par(g.set(p, n).term(i)),
        g.term(p) == g.read(n) ==> g.set(p, n).term(i) == g.term(i),
        i == p ==> g.set(p, n).term(i) == g.read(n),
    decreases rank[i as int],
{
    let g1 = g.set(p, n);
    lemma_set(g, p, n, rank);
    assert(g1.live(i));
    if i == p {
        assert(g1.term(i) == g1.read(n));
        if n.has_a() {
            assert(n.child(n.a));
            lemma_set_below(g, p, n, rank, n.a);
        }
        if n.has_b() {
            assert(n.child(n.b));
            lemma_set_below(g, p, n, rank, n.b);
        }
    } else {
        let m = g.at(i);
        assert(g1.at(i) == m);
        if m.has_a() {
            lemma_set_term_at(g, p, n, rank, m.a);
        }
        if m.has_b() {
            lemma_set_term_at(g, p, n, rank, m.b);
        }
        crate::term::lemma_par_refl(Term::Atom(S));
        crate::term::lemma_par_refl(Term::Atom(K));
        if m.tag == S2 {
            crate::term::lemma_par_app(Term::Atom(S), g.term(m.a), Term::Atom(S), g1.term(m.a));
        }
    }
}

/// Replacing a node by one that its expression reduces to reduces the
/// expressions of all live nodes side by side, and replacing it by one with
/// the same expression changes none.
pub proof fn lemma_set_terms(g: Graph, p: u32, n: Node, rank: Seq<nat>)
    requires
        g.wf(),
        g.ranked(rank),
        g.live(p),
        forall|c: u32| #[trigger] n.child(c) ==> g.live(c) && rank[c as int] < rank[p as int],
        g.term(p).par(g.read(n)),
    ensures
        forall|i: u32| #[trigger] g.live(i) ==> g.term(i).par(g.set(p, n).term(i)),
        g.term(p) == g.read(n) ==> forall|i: u32| #[trigger]
            g.live(i) ==> g.set(p, n).term(i) == g.term(i),
        g.set(p, n).term(p) == g.read(n),
        forall|i: u32| #[trigger]
            g.live(i) && rank[i as int] < rank[p as int] ==> g.set(p, n).term(i) == g.term(i),
{
    lemma_set(g, p, n, rank);
    assert forall|i: u32| #[trigger] g.live(i) implies g.term(i).par(g.set(p, n).term(i)) && (
    g.term(p) == g.read(n) ==> g.set(p, n).term(i) == g.term(i)) && (rank[i as int]
        < rank[p as int] ==> g.set(p, n).term(i) == g.term(i)) by {
        lemma_set_term_at(g, p, n, rank, i);
        if rank[i as int] < rank[p as int] {
            lemma_set_below(g, p, n, rank, i);
        }
    }
    lemma_set_term_at(g, p, n, rank, p);
}

/// Replacing a node that is no indirection redirects exactly what led to it.
pub proof fn lemma_set_follow(g: Graph, p: u32, n: Node, rank: Seq<nat>, i: u32)
    requires
        g.wf(),
        g.ranked(rank),
        g.live(p),
        g.tag(p) != IND,
        forall|c: u32| #[trigger] n.child(c) ==> g.live(c) && rank[c as int] < rank[p as int],
        g.live(i),
    ensures
        g.set(p, n).follow(i) == if g.follow(i) != p {
            g.follow(i)
        } else if n.tag == IND {
            g.follow(n.a)
        } else {
            p
        },
    decreases rank[i as int],
{
    let g1 = g.set(p, n);
    lemma_set(g, p, n, rank);
    assert(g1.live(i));
    if i == p {
        if n.tag == IND {
            assert(n.child(n.a));
            lemma_set_below(g, p, n, rank, n.a);
        }
    } else {
        assert(g1.at(i) == g.at(i));
        if g.tag(i) == IND {
            lemma_set_follow(g, p, n, rank, g.at(i).a);
        }
    }
}

proof fn lemma_compress_at(g: Graph, i: u32, j: u32, rank: Seq<nat>)
    requires
        g.wf(),
        g.ranked(rank),
        g.live(i),
        g.compress(i).wf(),
        g.live(j),
    ensures
        g.compress(i).term(j) == g.term(j),
        g.compress(i).follow(j) == g.follow(j),
    decreases rank[j as int],
{
    let g1 = g.compress(i);
    let n = g.at(j);
    assert(g1.live(j));
    if g.on_chain(i, j) {
        lemma_on_chain(g, i, j, rank);
        lemma_follow(g, i, rank);
        lemma_follow(g, j, rank);
        lemma_compress_at(g, i, g.follow(i), rank);
        assert(g1.at(j).a == g.follow(i));
    } else {
        assert(g1.at(j) == n);
        if n.has_a() {
            lemma_compress_at(g, i, n.a, rank);
        }
        if n.has_b() {
            lemma_compress_at(g, i, n.b, rank);
        }
    }
}

/// Path compression changes no expression, and no end of a chain of
/// indirections.
pub proof fn lemma_compress(g: Graph, i: u32)
    requires
        g.wf(),
        g.live(i),
    ensures
        g.compress(i).wf(),
        forall|rank: Seq<nat>| #[trigger] g.ranked(rank) ==> g.compress(i).ranked(rank),
        forall|j: u32| #[trigger] g.compress(i).live(j) == g.live(j),
        forall|j: u32|
            #![trigger g.compress(i).at(j)]
            g.live(j) ==> {
                &&& g.compress(i).at(j).tag == g.at(j).tag
                &&& g.compress(i).at(j).b == g.at(j).b
                &&& g.tag(j) != IND ==> g.compress(i).at(j) == g.at(j)
            },
        forall|j: u32| #[trigger] g.live(j) ==> g.compress(i).term(j) == g.term(j),
        forall|j: u32| #[trigger] g.live(j) ==> g.compress(i).follow(j) == g.follow(j),
{
    let g1 = g.compress(i);
    let rank = g.ranking();
    lemma_follow(g, i, rank);
    assert forall|j: u32| #[trigger] g.live(j) && g.on_chain(i, j) implies g.tag(j) == IND by {
        lemma_on_chain(g, i, j, rank);
    }
    assert forall|j: u32| g.live(j) implies #[trigger] g1.at(j).tag == g.at(j).tag && g1.at(j).b
        == g.at(j).b && (g.tag(j) != IND ==> g1.at(j) == g.at(j)) by {
        assert(j as int as u32 == j);
    }
    assert forall|r: Seq<nat>| #[trigger] g.ranked(r) implies g1.ranked(r) by {
        assert forall|j: u32| #[trigger] g1.live(j) implies {
            &&& g1.at(j).has_a() ==> r[g1.at(j).a as int] < r[j as int]
            &&& g1.at(j).has_b() ==> r[g1.at(j).b as int] < r[j as int]
        } by {
            assert(g.live(j));
            if g.on_chain(i, j) {
                lemma_on_chain(g, i, j, r);
            }
        }
    }
    assert forall|j: u32| #[trigger] g1.live(j) implies {
        &&& g1.at(j).has_a() ==> g1.live(g1.at(j).a)
        &&& g1.at(j).has_b() ==> g1.live(g1.at(j).b)
    } by {
        assert(g.live(j));
    }
    assert(g.ranked(rank));
    assert(g1.ranked(rank));
    assert forall|j: u32| #[trigger] g.live(j) implies g1.term(j) == g.term(j) && g1.follow(j)
        == g.follow(j) by {
        lemma_compress_at(g, i, j, rank);
    }
}

} // verus!
