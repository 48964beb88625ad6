//! Reduction to weak head normal form.

use vstd::prelude::*;
use crate::arena::Arena;
use crate::heap::{AllocError, Heap};
use crate::machine::Machine;
use crate::node::{APP, I, IND, K, K1, Node, S, S1, S2};

verus! {

broadcast use crate::heap::group_leads;

/// The spine is held in a vector from the outermost application inwards.
proof fn lemma_pops(s: Seq<u32>)
    ensures
        s.len() >= 1 ==> s.drop_last() =~= s.take(s.len() - 1),
        s.len() >= 2 ==> s.drop_last().drop_last() =~= s.take(s.len() - 2),
        s.len() >= 3 ==> s.drop_last().drop_last().drop_last() =~= s.take(s.len() - 3),
{
}

impl Arena {
    /// Turns a node into an indirection to `x`.
    fn redirect(&mut self, idx: u32, x: u32)
        requires
            old(self)@.wf(),
            old(self)@.live(idx),
        ensures
            final(self)@ == old(self)@.redirect(idx, x),
    {
        let n = self.node(idx);
        self.overwrite(idx, Node { tag: IND, a: x, b: n.b });
    }

    /// Builds `f x (g x)`.
    fn spread(&mut self, f: u32, g: u32, x: u32) -> (r: Result<u32, AllocError>)
        requires
            old(self)@.wf(),
            old(self)@.live(f),
            old(self)@.live(g),
            old(self)@.live(x),
        ensures
            Heap::ran(old(self)@.spread(f, g, x), final(self)@, r),
            old(self)@.leads_to(final(self)@),
            r matches Ok(i) ==> final(self)@.live(i),
    {
        let fx: u32 = self.allocate(APP, f, x)?;
        let gx: u32 = self.allocate(APP, g, x)?;
        self.allocate(APP, fx, gx)
    }

    /// `I x` and `(K x) y`, with `x` at `src`.
    fn project(&mut self, spine: &mut Vec<u32>, src: u32) -> (x: u32)
        requires
            old(self)@.wf(),
            old(spine)@.len() >= 1,
            old(self)@.live(src),
            old(self)@.live(old(spine)@.last()),
        ensures
            forall|n: u32|
                (Machine { heap: final(self)@, spine: final(spine)@, n: x }) == (#[trigger] (Machine {
                    heap: old(self)@,
                    spine: old(spine)@,
                    n,
                }).project(src)),
    {
        let ghost s0 = spine@;
        let app: u32 = spine.pop().unwrap();
        let x: u32 = self.follow_mut(src);
        self.redirect(app, x);
        proof {
            lemma_pops(s0);
        }
        x
    }

    /// `K x y`.
    fn project_k(&mut self, spine: &mut Vec<u32>, n: u32) -> (x: u32)
        requires
            (Machine { heap: old(self)@, spine: old(spine)@, n }).wf(),
            old(spine)@.len() >= 2,
        ensures
            (Machine { heap: final(self)@, spine: final(spine)@, n: x }) == (Machine {
                heap: old(self)@,
                spine: old(spine)@,
                n,
            }).project_k(),
    {
        let ghost m = Machine { heap: self@, spine: spine@, n };
        proof {
            lemma_pops(spine@);
            assert(m.linked(m.spine.len() - 1));
            assert(m.linked(m.spine.len() - 2));
        }
        let app1: u32 = spine.pop().unwrap();
        let app2: u32 = spine.pop().unwrap();
        let src: u32 = self.node(app1).b;
        let x: u32 = self.follow_mut(src);
        proof {
            assert(m.heap.graph.live(app1) && m.heap.graph.live(app2));
        }
        self.redirect(app2, x);
        let b: u32 = self.node(app1).b;
        self.overwrite(app1, Node { tag: K1, a: x, b });
        x
    }

    /// `(S f g) x`.
    fn spread_s2(&mut self, spine: &mut Vec<u32>, n: u32) -> (r: Result<u32, AllocError>)
        requires
            (Machine { heap: old(self)@, spine: old(spine)@, n }).wf(),
            old(spine)@.len() >= 1,
            old(self)@.tag(n) == S2,
        ensures
            ({
                let m = Machine { heap: old(self)@, spine: old(spine)@, n };
                match r {
                    Ok(x) => m.spread_s2() == Ok::<Machine, AllocError>(
                        Machine { heap: final(self)@, spine: final(spine)@, n: x },
                    ),
                    Err(e) => m.spread_s2() == Err::<Machine, AllocError>(e) && m.heap.leads_to(
                        final(self)@,
                    ),
                }
            }),
    {
        let ghost h0 = self@;
        let ghost m = Machine { heap: self@, spine: spine@, n };
        proof {
            lemma_pops(spine@);
            assert(m.linked(m.spine.len() - 1));
        }
        let app: u32 = spine.pop().unwrap();
        let a: u32 = self.node(n).a;
        let f: u32 = self.follow_mut(a);
        proof {
            crate::heap::lemma_chase(h0, a);
        }
        let ghost h1 = self@;
        let b: u32 = self.node(n).b;
        let g: u32 = self.follow_mut(b);
        proof {
            crate::heap::lemma_chase(h1, b);
            assert(self@.at(app) == h0.at(app));
        }
        let x: u32 = self.node(app).b;
        let result: u32 = self.spread(f, g, x)?;
        self.redirect(app, result);
        Ok(result)
    }

    /// `(S f) g x`.
    fn spread_s1(&mut self, spine: &mut Vec<u32>, n: u32) -> (r: Result<u32, AllocError>)
        requires
            (Machine { heap: old(self)@, spine: old(spine)@, n }).wf(),
            old(spine)@.len() >= 2,
            old(self)@.tag(n) == S1,
        ensures
            ({
                let m = Machine { heap: old(self)@, spine: old(spine)@, n };
                match r {
                    Ok(x) => m.spread_s1() == Ok::<Machine, AllocError>(
                        Machine { heap: final(self)@, spine: final(spine)@, n: x },
                    ),
                    Err(e) => m.spread_s1() == Err::<Machine, AllocError>(e) && m.heap.leads_to(
                        final(self)@,
                    ),
                }
            }),
    {
        let ghost h0 = self@;
        let ghost m = Machine { heap: self@, spine: spine@, n };
        proof {
            lemma_pops(spine@);
            assert(m.linked(m.spine.len() - 1));
            assert(m.linked(m.spine.len() - 2));
        }
        let app1: u32 = spine.pop().unwrap();
        let app2: u32 = spine.pop().unwrap();
        let a: u32 = self.node(n).a;
        let f: u32 = self.follow_mut(a);
        proof {
            crate::heap::lemma_chase(h0, a);
        }
        let ghost h1 = self@;
        let b: u32 = self.node(app1).b;
        let g: u32 = self.follow_mut(b);
        proof {
            crate::heap::lemma_chase(h1, b);
            assert(self@.at(app2) == h0.at(app2));
        }
        let x: u32 = self.node(app2).b;
        let result: u32 = self.spread(f, g, x)?;
        self.redirect(app2, result);
        self.overwrite(app1, Node { tag: S2, a: f, b: g });
        Ok(result)
    }

    /// `S f g x`.
    fn spread_s(&mut self, spine: &mut Vec<u32>, n: u32) -> (r: Result<u32, AllocError>)
        requires
            (Machine { heap: old(self)@, spine: old(spine)@, n }).wf(),
            old(spine)@.len() >= 3,
        ensures
            ({
                let m = Machine { heap: old(self)@, spine: old(spine)@, n };
                match r {
                    Ok(x) => m.spread_s() == Ok::<Machine, AllocError>(
                        Machine { heap: final(self)@, spine: final(spine)@, n: x },
                    ),
                    Err(e) => m.spread_s() == Err::<Machine, AllocError>(e) && m.heap.leads_to(
                        final(self)@,
                    ),
                }
            }),
    {
        let ghost h0 = self@;
        let ghost m = Machine { heap: self@, spine: spine@, n };
        proof {
            lemma_pops(spine@);
            assert(m.linked(m.spine.len() - 1));
            assert(m.linked(m.spine.len() - 2));
            assert(m.linked(m.spine.len() - 3));
        }
        let app1: u32 = spine.pop().unwrap();
        let app2: u32 = spine.pop().unwrap();
        let app3: u32 = spine.pop().unwrap();
        let a: u32 = self.node(app1).b;
        let f: u32 = self.follow_mut(a);
        proof {
            crate::heap::lemma_chase(h0, a);
        }
        let ghost h1 = self@;
        let b: u32 = self.node(app2).b;
        let g: u32 = self.follow_mut(b);
        proof {
            crate::heap::lemma_chase(h1, b);
            assert(self@.at(app3) == h0.at(app3));
        }
        let x: u32 = self.node(app3).b;
        let result: u32 = self.spread(f, g, x)?;
        self.redirect(app3, result);
        let b1: u32 = self.node(app1).b;
        self.overwrite(app1, Node { tag: S1, a: f, b: b1 });
        self.overwrite(app2, Node { tag: S2, a: f, b: g });
        Ok(result)
    }

    /// Contracts the redex at the inner end of the spine, if there is one, and
    /// gives the node to go on with.
    fn contract(&mut self, spine: &mut Vec<u32>, n: u32) -> (r: Result<Option<u32>, AllocError>)
        requires
            (Machine { heap: old(self)@, spine: old(spine)@, n }).wf(),
            old(self)@.tag(n) != APP,
        ensures
            ({
                let m = Machine { heap: old(self)@, spine: old(spine)@, n };
                &&& m.heap.leads_to(final(self)@)
                &&& match r {
                    Ok(Some(x)) => m.contract() == Ok::<Option<Machine>, AllocError>(
                        Some(Machine { heap: final(self)@, spine: final(spine)@, n: x }),
                    ),
                    Ok(None) => m.contract() == Ok::<Option<Machine>, AllocError>(None)
                        && final(self)@ == old(self)@ && final(spine)@ == old(spine)@,
                    Err(e) => m.contract() == Err::<Option<Machine>, AllocError>(e),
                }
            }),
    {
        let ghost m = Machine { heap: self@, spine: spine@, n };
        proof {
            crate::machine::lemma_contract(m);
            if m.spine.len() > 0 {
                assert(m.linked(m.spine.len() - 1));
            }
            crate::heap::lemma_leads_refl(self@);
        }
        let node = self.node(n);
        let len: usize = spine.len();
        if node.tag == I && len >= 1 {
            let src: u32 = self.node(spine[len - 1]).b;
            let x: u32 = self.project(spine, src);
            assert(m.project(src).n == x);
            Ok(Some(x))
        } else if node.tag == K && len >= 2 {
            Ok(Some(self.project_k(spine, n)))
        } else if node.tag == K1 && len >= 1 {
            let x: u32 = self.project(spine, node.a);
            assert(m.project(node.a).n == x);
            Ok(Some(x))
        } else if node.tag == S && len >= 3 {
            match self.spread_s(spine, n) {
                Ok(x) => Ok(Some(x)),
                Err(e) => Err(e),
            }
        } else if node.tag == S1 && len >= 2 {
            match self.spread_s1(spine, n) {
                Ok(x) => Ok(Some(x)),
                Err(e) => Err(e),
            }
        } else if node.tag == S2 && len >= 1 {
            match self.spread_s2(spine, n) {
                Ok(x) => Ok(Some(x)),
                Err(e) => Err(e),
            }
        } else {
            Ok(None)
        }
    }

    /// Reduces a node to weak head normal form, one unit of fuel for each
    /// contraction. The value is the node that then stands for it; when the
    /// fuel is used up, it is the node that the last contraction led to.
    pub fn whnf(&mut self, node: u32, fuel: &mut u64) -> (r: Result<u32, AllocError>)
        requires
            old(self)@.wf(),
            old(self)@.live(node),
        ensures
            match r {
                Ok(n) => old(self)@.whnf(node, *old(fuel) as nat) == Ok::<
                    (Heap, (u32, nat)),
                    AllocError,
                >((final(self)@, (n, *final(fuel) as nat))),
                Err(e) => old(self)@.whnf(node, *old(fuel) as nat) == Err::<
                    (Heap, (u32, nat)),
                    AllocError,
                >(e),
            },
            old(self)@.leads_to(final(self)@),
            *final(fuel) <= *old(fuel),
            r matches Ok(n) ==> final(self)@.live(n) && final(self)@.tag(n) != IND,
            r matches Ok(n) ==> *final(fuel) > 0 ==> final(self)@.follow(node) == n && final(self)@.term(n).step() is None && old(self)@.term(node).reduces(final(self)@.term(n)),
    {
        proof {
            reveal(Heap::whnf);
        }
        let ghost h0 = self@;
        let ghost goal = h0.whnf(node, *fuel as nat);
        proof {
            crate::machine::lemma_start(h0, node);
            crate::machine::lemma_whnf(h0, node, *fuel as nat);
        }
        let mut spine: Vec<u32> = Vec::with_capacity(256);
        let mut n: u32 = self.follow_mut(node);
        proof {
            assert(spine@ =~= Seq::empty());
        }
        loop
            invariant
                (Machine { heap: self@, spine: spine@, n }).wf(),
                (Machine { heap: self@, spine: spine@, n }).run(*fuel as nat) == goal,
                goal == h0.whnf(node, *old(fuel) as nat),
                goal matches Ok((h, (x, f))) ==> h.live(x) && h.tag(x) != IND && (f > 0 ==> h.follow(
                    node,
                ) == x && h.term(x).step() is None && h0.term(node).reduces(h.term(x))),
                h0 == old(self)@,
                h0.leads_to(self@),
                *fuel <= *old(fuel),
            decreases *fuel, self@.term(n),
        {
            if *fuel == 0 {
                return Ok(n);
            }
            let ghost m = Machine { heap: self@, spine: spine@, n };
            if self.node(n).tag == APP {
                proof {
                    crate::machine::lemma_descend(m);
                }
                let a: u32 = self.node(n).a;
                spine.push(n);
                n = self.follow_mut(a);
            } else {
                proof {
                    crate::machine::lemma_contract(m);
                }
                match self.contract(&mut spine, n) {
                    Err(e) => {
                        return Err(e);
                    },
                    Ok(None) => {
                        if spine.len() > 0 {
                            return Ok(spine[0]);
                        }
                        return Ok(n);
                    },
                    Ok(Some(x)) => {
                        n = x;
                        *fuel = *fuel - 1;
                    },
                }
            }
        }
    }
}

} // verus!
