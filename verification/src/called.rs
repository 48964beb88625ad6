//! What calling a program as a function of numbers promises, and drawing the
//! image that it gives.

use vstd::prelude::*;
use crate::grid::{Budget, GridView, Unwrap};
use crate::heap::Heap;
use crate::node::{K, S};
use crate::term::Term;
use crate::value::Value;

verus! {

broadcast use crate::heap::group_leads;

impl Term {
    /// The function applied to the numbers, the first one first.
    pub open spec fn at_numbers(self, args: Seq<u64>) -> Term
        decreases args.len(),
    {
        if args.len() == 0 {
            self
        } else {
            Term::app(self, Term::number(args[0] as nat)).at_numbers(args.skip(1))
        }
    }

    /// `K (... (K x))` with `j` times `K`.
    pub open spec fn constant(x: Term, j: nat) -> Term
        decreases j,
    {
        if j == 0 {
            x
        } else {
            Term::app(Term::Atom(K), Term::constant(x, (j - 1) as nat))
        }
    }

    /// There may be something to open: `K y`, or `S f g` where those are to be
    /// opened too.
    pub open spec fn opens(self, composed: bool) -> bool {
        ||| self.head() == Term::Atom(K) && self.arity() == 1
        ||| composed && self.head() == Term::Atom(S) && self.arity() == 2
    }

    /// The expression evaluates, within `b` reductions, to at most ten constant
    /// functions around a value that is `v`. They are opened only on demand, and
    /// the value itself is not to be opened then.
    pub open spec fn samples_by(self, unwrap: Unwrap, v: Value, x: Term, j: nat, b: nat) -> bool {
        &&& j <= 10
        &&& x.step() is None
        &&& exists|k: nat| k <= b && #[trigger] self.reaches(k, Term::constant(x, j))
        &&& x.is_number_or_bool(v, b)
        &&& match unwrap {
            Unwrap::Keep => j == 0,
            Unwrap::Constants => !x.opens(false),
            Unwrap::Composed => !x.opens(true),
        }
    }

    /// The value of the expression is `v`.
    pub open spec fn samples(self, unwrap: Unwrap, v: Value, b: nat) -> bool {
        exists|x: Term, j: nat| #[trigger] self.samples_by(unwrap, v, x, j, b)
    }
}

/// A constant function is a weak head normal form.
proof fn lemma_constant_normal(x: Term, j: nat)
    requires
        x.step() is None,
    ensures
        Term::constant(x, j).step() is None,
{
    if j > 0 {
        reveal_with_fuel(Term::step, 2);
    }
}

/// Reduction of constant functions around a value reduces the value.
proof fn lemma_constant_reduces(x: Term, j: nat, u: Term) -> (y: Term)
    requires
        x.step() is None,
        Term::constant(x, j).reduces(u),
    ensures
        u == Term::constant(y, j),
        x.reduces(y),
    decreases j,
{
    if j == 0 {
        u
    } else {
        let inner = Term::constant(x, (j - 1) as nat);
        lemma_constant_normal(x, j);
        crate::term::lemma_reduces_normal(Term::constant(x, j), u);
        reveal_with_fuel(Term::step, 2);
        crate::term::lemma_reduces_normal(Term::Atom(K), u.fun());
        lemma_constant_reduces(x, (j - 1) as nat, u.arg())
    }
}

/// Reduction does not change the value.
pub proof fn lemma_samples(t: Term, u: Term, unwrap: Unwrap, v: Value, b: nat)
    requires
        t.samples(unwrap, v, b),
        t.reduces(u),
    ensures
        u.samples(unwrap, v, b),
{
    let (x, j) = choose|x: Term, j: nat| #[trigger] t.samples_by(unwrap, v, x, j, b);
    let k = choose|k: nat| k <= b && #[trigger] t.reaches(k, Term::constant(x, j));
    let (k1, w) = crate::term::lemma_reduces_reaches(t, u, k, Term::constant(x, j));
    let y = lemma_constant_reduces(x, j, w);
    crate::term::lemma_reduces_normal(x, y);
    crate::readings::lemma_is_number_or_bool(x, y, v, b);
    assert(u.reaches(k1, Term::constant(y, j)));
    assert(u.samples_by(unwrap, v, y, j, b));
}

/// Reduction of the function reduces the application.
proof fn lemma_at_numbers(t: Term, u: Term, args: Seq<u64>)
    requires
        t.reduces(u),
    ensures
        t.at_numbers(args).reduces(u.at_numbers(args)),
    decreases args.len(),
{
    if args.len() > 0 {
        let n = Term::number(args[0] as nat);
        crate::term::lemma_reduces_refl(n);
        crate::term::lemma_reduces_app(t, n, u, n);
        lemma_at_numbers(Term::app(t, n), Term::app(u, n), args.skip(1));
    }
}

/// Making numbers gives a node for each, in their order.
proof fn lemma_make_numbers(h: Heap, args: Seq<u64>, nodes: Seq<u32>)
    requires
        h.wf(),
        h.all_live(nodes),
    ensures
        h.room() >= 1600 * args.len() ==> h.make_numbers(args, nodes) is Ok,
        h.make_numbers(args, nodes) matches Ok((h1, ns)) ==> {
            &&& h.builds(h1, 1600 * args.len())
            &&& h1.all_live(ns)
            &&& ns.len() == nodes.len() + args.len()
            &&& nodes.is_prefix_of(ns)
            &&& forall|k: int|
                0 <= k < args.len() ==> h1.term(#[trigger] ns[nodes.len() + k]) == Term::number(
                    args[k] as nat,
                )
        },
    decreases args.len(),
{
    if args.len() == 0 {
        crate::heap::lemma_builds_refl(h);
    } else {
        let n = args[0] as nat;
        let rest = args.skip(1);
        crate::encode::lemma_make_scott_num(h, n);
        vstd::arithmetic::power2::lemma2_to64();
        crate::laws::lemma_bit_length(n, 64);
        if let Ok((h1, i)) = h.make_scott_num(n) {
            let more = nodes.push(i);
            assert forall|k: int| 0 <= k < more.len() implies h1.live(#[trigger] more[k]) by {
                if k < nodes.len() {
                    assert(h.live(nodes[k]));
                }
            }
            lemma_make_numbers(h1, rest, more);
            if let Ok((h2, ns)) = h1.make_numbers(rest, more) {
                crate::heap::lemma_builds_trans(
                    h,
                    h1,
                    h2,
                    23 + 24 * crate::encode::bit_length(n),
                    1600 * rest.len(),
                );
                assert(ns[nodes.len() as int] == more[nodes.len() as int]);
                assert forall|k: int| 0 <= k < args.len() implies h2.term(
                    #[trigger] ns[nodes.len() + k],
                ) == Term::number(args[k] as nat) by {
                    if k > 0 {
                        assert(ns[nodes.len() + k] == ns[more.len() + (k - 1)]);
                        assert(rest[k - 1] == args[k]);
                    } else {
                        assert(h1.live(i));
                    }
                }
                assert forall|k: int| 0 <= k < nodes.len() implies nodes[k] == ns[k] by {
                    assert(more[k] == ns[k]);
                }
                assert(nodes.is_prefix_of(ns));
            }
        }
    }
}

/// Applying a node to the nodes of numbers gives a node for the application.
proof fn lemma_apply_all(h: Heap, f: u32, nodes: Seq<u32>, args: Seq<u64>)
    requires
        h.wf(),
        h.live(f),
        h.all_live(nodes),
        nodes.len() == args.len(),
        forall|k: int|
            0 <= k < args.len() ==> h.term(#[trigger] nodes[k]) == Term::number(args[k] as nat),
    ensures
        h.room() >= args.len() ==> h.apply_all(f, nodes) is Ok,
        h.apply_all(f, nodes) matches Ok((h1, app)) ==> h.builds(h1, args.len()) && h1.live(app)
            && h1.term(app) == h.term(f).at_numbers(args),
    decreases args.len(),
{
    if args.len() == 0 {
        crate::heap::lemma_builds_refl(h);
    } else {
        assert(h.live(nodes[0]));
        crate::select::lemma_apply(h, f, nodes[0]);
        if let Ok((h1, app)) = h.apply(f, nodes[0]) {
            let rest = nodes.skip(1);
            assert forall|k: int| 0 <= k < rest.len() implies h1.live(#[trigger] rest[k])
                && h1.term(rest[k]) == Term::number(args.skip(1)[k] as nat) by {
                assert(rest[k] == nodes[k + 1]);
                assert(h.live(nodes[k + 1]));
            }
            lemma_apply_all(h1, app, rest, args.skip(1));
            if let Ok((h2, _)) = h1.apply_all(app, rest) {
                crate::heap::lemma_builds_trans(h, h1, h2, 1, (args.len() - 1) as nat);
            }
        }
    }
}

/// Calling a function of numbers evaluates the function applied to them, the
/// first one first.
pub proof fn lemma_call(h: Heap, f: u32, args: Seq<u64>, fuel: nat, k: nat, w: Term)
    requires
        h.wf(),
        h.live(f),
    ensures
        h.call(f, args, fuel) matches Ok((h1, (r, left))) ==> h.leads_to(h1) && h1.live(r) && left
            <= fuel && h.term(f).at_numbers(args).reduces(h1.term(r)),
        h.term(f).at_numbers(args).reaches(k, w) && fuel > k && h.room() >= 1601 * args.len() + 3
            * k ==> (h.call(f, args, fuel) matches Ok((h1, (r, left))) && left + k >= fuel
            && w.reduces(h1.term(r)) && h1.room() + 1601 * args.len() + 3 * k >= h.room()),
{
    reveal(Heap::call);
    lemma_make_numbers(h, args, Seq::empty());
    if let Ok((h1, nodes)) = h.make_numbers(args, Seq::empty()) {
        assert forall|k: int| 0 <= k < args.len() implies h1.term(#[trigger] nodes[k])
            == Term::number(args[k] as nat) by {
            assert(nodes[k] == nodes[Seq::<u32>::empty().len() + k]);
        }
        assert(h1.live(f));
        lemma_apply_all(h1, f, nodes, args);
        if let Ok((h2, app)) = h1.apply_all(f, nodes) {
            crate::heap::lemma_builds_trans(h, h1, h2, 1600 * args.len(), args.len());
            crate::select::lemma_eval(h2, app, fuel);
            if h.term(f).at_numbers(args).reaches(k, w) && fuel > k && h.room() >= 1601 * args.len()
                + 3 * k {
                crate::select::lemma_eval_reaches(h2, app, fuel, k, w);
            }
        }
    }
}

/// What is found within a constant function.
proof fn lemma_within_constant(h: Heap, i: u32, composed: bool)
    requires
        h.wf(),
        h.live(i),
    ensures
        h.within_constant(i, composed) matches Some(x) ==> h.live(x),
        !h.term(i).opens(composed) ==> h.within_constant(i, composed) is None,
        h.term(i).is_app() && h.term(i).fun() == Term::Atom(K) ==> (h.within_constant(
            i,
            composed,
        ) matches Some(x) && h.live(x) && h.term(x) == h.term(i).arg()),
{
    let g = h.graph;
    let rank = g.ranking();
    crate::graph::lemma_follow(g, i, rank);
    let j = h.follow(i);
    let n = h.at(j);
    reveal_with_fuel(Term::head, 3);
    reveal_with_fuel(Term::arity, 3);
    if n.tag == crate::node::APP {
        assert(g.live(n.a) && g.live(n.b));
        crate::graph::lemma_follow(g, n.a, rank);
        assert(g.live(g.follow(n.a)));
    } else if n.tag == crate::node::S2 {
        assert(g.live(n.a) && g.live(n.b));
        crate::graph::lemma_follow(g, n.a, rank);
    } else if n.tag == crate::node::K1 {
        assert(g.live(n.a));
    }
}

/// Opening constant functions leads to what lies within.
proof fn lemma_unwrap_constants(
    h: Heap,
    node: u32,
    composed: bool,
    rounds: nat,
    x: Term,
    j: nat,
)
    requires
        h.wf(),
        h.live(node),
    ensures
        h.leads_to(h.unwrap_constants(node, composed, rounds).0),
        h.unwrap_constants(node, composed, rounds).0.live(
            h.unwrap_constants(node, composed, rounds).1,
        ),
        h.unwrap_constants(node, composed, rounds).0.room() == h.room(),
        j <= rounds && h.term(node) == Term::constant(x, j) && !x.opens(composed)
            ==> h.unwrap_constants(node, composed, rounds).0.term(
            h.unwrap_constants(node, composed, rounds).1,
        ) == x,
    decreases rounds,
{
    crate::heap::lemma_leads_refl(h);
    if rounds > 0 {
        lemma_within_constant(h, node, composed);
        if let Some(n) = h.within_constant(node, composed) {
            crate::heap::lemma_chase(h, n);
            let h1 = h.chase(n);
            let m = h.follow(n);
            crate::graph::lemma_follow(h.graph, n, h.graph.ranking());
            assert(h.live(m));
            assert(h1.live(m) && h1.term(m) == h.term(n));
            lemma_unwrap_constants(
                h1,
                m,
                composed,
                (rounds - 1) as nat,
                x,
                crate::decode::minus(j, 1),
            );
            crate::heap::lemma_leads_trans(
                h,
                h1,
                h1.unwrap_constants(m, composed, (rounds - 1) as nat).0,
            );
        }
    }
}

proof fn lemma_open_rounds(h: Heap, node: u32, composed: bool, rounds: nat, x: Term, j: nat)
    requires
        h.wf(),
        h.live(node),
        h.term(node) == Term::constant(x, j),
        rounds <= j,
    ensures
        ({
            let (h1, r) = h.unwrap_constants(node, composed, rounds);
            h1.term(r) == Term::constant(x, (j - rounds) as nat)
        }),
    decreases rounds,
{
    if rounds > 0 {
        lemma_within_constant(h, node, composed);
        let n = h.within_constant(node, composed)->0;
        crate::heap::lemma_chase(h, n);
        crate::graph::lemma_follow(h.graph, n, h.graph.ranking());
        let m = h.follow(n);
        assert(h.live(m));
        lemma_open_rounds(
            h.chase(n),
            m,
            composed,
            (rounds - 1) as nat,
            x,
            (j - 1) as nat,
        );
    }
}

/// Of many constant functions around a value ten are opened, and the others are
/// left.
pub proof fn lemma_open_ten(h: Heap, node: u32, unwrap: Unwrap, x: Term, j: nat)
    requires
        h.wf(),
        h.live(node),
        h.term(node) == Term::constant(x, j),
        j >= 10,
        unwrap != Unwrap::Keep,
    ensures
        ({
            let (h1, r) = h.unwrap(node, unwrap);
            h1.term(r) == Term::constant(x, (j - 10) as nat)
        }),
{
    lemma_open_rounds(h, node, false, 10, x, j);
    lemma_open_rounds(h, node, true, 10, x, j);
}

/// `S f g` is opened where that is asked for and `f` is `K K`, and `g` is what
/// lies within.
pub proof fn lemma_open_composed(h: Heap, node: u32, composed: bool)
    requires
        h.wf(),
        h.live(node),
        h.tag(h.follow(node)) == crate::node::S2,
    ensures
        h.term(node).is_app() && h.term(node).fun().is_app(),
        h.within_constant(node, composed) is Some <==> composed && h.term(node).fun().arg()
            == Term::app(Term::Atom(K), Term::Atom(K)),
        h.within_constant(node, composed) matches Some(x) ==> h.live(x) && h.term(x) == h.term(
            node,
        ).arg(),
{
    let g = h.graph;
    let rank = g.ranking();
    crate::graph::lemma_follow(g, node, rank);
    let n = h.at(h.follow(node));
    assert(g.live(n.a) && g.live(n.b));
    crate::graph::lemma_follow(g, n.a, rank);
    let f = g.follow(n.a);
    let m = h.at(f);
    assert(g.live(f));
    if m.tag == crate::node::K1 {
        assert(g.live(m.a));
        crate::graph::lemma_follow(g, m.a, rank);
    } else if m.tag == crate::node::APP {
        assert(g.live(m.a) && g.live(m.b));
        crate::graph::lemma_follow(g, m.a, rank);
        crate::graph::lemma_follow(g, m.b, rank);
    } else if m.tag == crate::node::S1 {
        assert(g.live(m.a));
    } else if m.tag == crate::node::S2 {
        assert(g.live(m.a) && g.live(m.b));
    }
}

/// The second component of an application to two arguments or more is its last
/// argument; a combinator has none.
pub proof fn lemma_second_component(h: Heap, node: u32)
    requires
        h.wf(),
        h.live(node),
    ensures
        h.second_component(node) matches Some(x) ==> h.live(x) && h.term(node).is_app() && h.term(x)
            == h.term(node).arg(),
        h.term(node).arity() >= 2 ==> h.second_component(node) is Some,
        h.tag(h.follow(node)) == crate::node::K1 ==> h.second_component(node) is None,
        h.tag(h.follow(node)) == crate::node::S1 ==> h.second_component(node) is None,
        h.tag(h.follow(node)) == crate::node::APP ==> h.second_component(node) is Some,
        !h.term(node).is_app() ==> h.second_component(node) is None,
{
    let g = h.graph;
    let rank = g.ranking();
    crate::graph::lemma_follow(g, node, rank);
    let n = h.at(h.follow(node));
    reveal_with_fuel(Term::arity, 3);
    if n.tag == crate::node::APP || n.tag == crate::node::S2 {
        assert(g.live(n.a) && g.live(n.b));
        crate::graph::lemma_follow(g, n.b, rank);
    } else if n.tag == crate::node::K1 || n.tag == crate::node::S1 {
        assert(g.live(n.a));
    }
}

/// A call and its reading leave the arena well formed.
proof fn lemma_sample_leads(h: Heap, f: u32, args: Seq<u64>, unwrap: Unwrap, budget: Budget)
    requires
        h.wf(),
        h.live(f),
    ensures
        h.sample(f, args, unwrap, budget) matches Ok((h1, s)) ==> h.leads_to(h1) && h1.live(s.node),
{
    reveal(Heap::sample);
    let t = h.term(f);
    lemma_call(h, f, args, budget.call as nat, 0, t);
    if let Ok((h1, (r, _))) = h.call(f, args, budget.call as nat) {
        crate::heap::lemma_leads_refl(h1);
        lemma_unwrap_constants(h1, r, false, 10, t, 0);
        lemma_unwrap_constants(h1, r, true, 10, t, 0);
        let (h2, node) = h1.unwrap(r, unwrap);
        crate::readings::lemma_number_leads(h2, node, budget.number as nat);
        if let Ok((h3, num)) = h2.decode_scott_num(node, budget.number as nat) {
            crate::select::lemma_decode_bool(h3, node, budget.boolean as nat);
        }
    }
}

/// Enough fuel for a call whose value and its parts take `b` reductions each.
pub open spec fn budget_for(budget: Budget, b: nat) -> bool {
    &&& budget.call > b
    &&& budget.number >= crate::readings::value_fuel(b)
    &&& budget.boolean > b
}

/// Enough room for a call with `n` numbers.
pub open spec fn call_room(n: nat, b: nat) -> nat {
    1601 * n + 3 * b + crate::readings::value_room(b)
}

/// The value of a call is the value of the function applied to the numbers.
pub proof fn lemma_sample(
    h: Heap,
    f: u32,
    args: Seq<u64>,
    unwrap: Unwrap,
    budget: Budget,
    v: Value,
    b: nat,
)
    requires
        h.wf(),
        h.live(f),
        h.term(f).at_numbers(args).samples(unwrap, v, b),
        budget_for(budget, b),
        h.room() >= call_room(args.len(), b),
    ensures
        h.sample(f, args, unwrap, budget) matches Ok((h1, s)) && s.value == v && h.leads_to(h1)
            && h1.live(s.node) && exists|x: Term, j: nat| #[trigger]
            h.term(f).at_numbers(args).samples_by(unwrap, v, x, j, b) && x.reduces(
                h1.term(s.node),
            ),
{
    reveal(Heap::sample);
    let t = h.term(f).at_numbers(args);
    let (x, j) = choose|x: Term, j: nat| #[trigger] t.samples_by(unwrap, v, x, j, b);
    let w = Term::constant(x, j);
    let k = choose|k: nat| k <= b && #[trigger] t.reaches(k, w);
    lemma_call(h, f, args, budget.call as nat, k, w);
    let (h1, (r, _)) = h.call(f, args, budget.call as nat)->Ok_0;
    crate::heap::lemma_leads_refl(h1);
    let y = lemma_constant_reduces(x, j, h1.term(r));
    crate::term::lemma_reduces_normal(x, y);
    lemma_unwrap_constants(h1, r, false, 10, y, j);
    lemma_unwrap_constants(h1, r, true, 10, y, j);
    let (h2, node) = h1.unwrap(r, unwrap);
    assert(h2.term(node) == y);
    crate::readings::lemma_number_or_bool(
        h2,
        node,
        budget.number as nat,
        budget.boolean as nat,
        x,
        v,
        b,
    );
    let (h3, _) = h2.number_or_bool(node, budget.number as nat, budget.boolean as nat)->Ok_0;
    crate::laws::lemma_still(h2, h3, node, x);
    assert(t.samples_by(unwrap, v, x, j, b));
}

/// Where there is nothing to open, it makes no difference whether constant
/// functions are to be opened.
pub proof fn lemma_nothing_to_open(
    h: Heap,
    f: u32,
    args: Seq<u64>,
    composed: bool,
    budget: Budget,
)
    requires
        h.call(f, args, budget.call as nat) matches Ok((h1, (r, _))) ==> h1.within_constant(
            r,
            composed,
        ) is None,
    ensures
        h.sample(
            f,
            args,
            if composed {
                Unwrap::Composed
            } else {
                Unwrap::Constants
            },
            budget,
        ) == h.sample(f, args, Unwrap::Keep, budget),
{
    reveal(Heap::sample);
}

/// The function applied to `n`, a row, and a column.
pub open spec fn pixel_term(f: Term, n: u64, row: nat, col: nat) -> Term {
    Term::app(Term::app2(f, Term::number(n as nat), Term::number(row)), Term::number(col))
}

proof fn lemma_pixel_term(f: Term, n: u64, row: nat, col: nat)
    requires
        row <= u64::MAX,
        col <= u64::MAX,
    ensures
        f.at_numbers(seq![n, row as u64, col as u64]) == pixel_term(f, n, row, col),
{
    let at = seq![n, row as u64, col as u64];
    reveal_with_fuel(Term::at_numbers, 4);
    assert(at.skip(1) =~= seq![row as u64, col as u64]);
    assert(at.skip(1).skip(1) =~= seq![col as u64]);
    assert(at.skip(1).skip(1).skip(1) =~= Seq::empty());
}

/// The pixel `p` shows the value, where `before` is what it was.
pub open spec fn shows_value(p: u8, v: Value, before: u8) -> bool {
    match v {
        Value::Number(n) => n <= 255 && p == n || n > 255 && p == 255,
        Value::Boolean(x) => p == if x {
            255u8
        } else {
            0u8
        },
        Value::Unknown => p == before,
    }
}

/// A row of an image: the pixel in a column is the value of the function at `n`,
/// the row, and the column, as far as the function has one there that fuel and
/// room allow. The other rows stay, and the next row is the next one.
pub proof fn lemma_grid_row(
    h: Heap,
    f: u32,
    n: u64,
    unwrap: Unwrap,
    budget: Budget,
    g: GridView,
    col: nat,
)
    requires
        h.wf(),
        h.live(f),
        g.row < g.size <= u64::MAX,
        col <= g.size,
        g.pixels.len() == g.size * g.size,
    ensures
        h.grid_row(f, n, unwrap, budget, g, col) matches Ok((h1, g1)) ==> {
            &&& h.leads_to(h1)
            &&& g1.size == g.size
            &&& g1.row == g.row + 1
            &&& g1.pixels.len() == g.pixels.len()
            &&& forall|i: int|
                0 <= i < g.pixels.len() && !(g.row * g.size + col <= i < (g.row + 1) * g.size)
                    ==> #[trigger] g1.pixels[i] == g.pixels[i]
            &&& forall|z: nat, v: Value, b: nat|
                col <= z < g.size && #[trigger] pixel_term(h.term(f), n, g.row, z).samples(
                    unwrap,
                    v,
                    b,
                ) && budget_for(budget, b) && h1.room() >= call_room(3, b) ==> shows_value(
                    g1.pixels[(g.row * g.size + z) as int],
                    v,
                    g.pixels[(g.row * g.size + z) as int],
                )
        },
    decreases g.size - col,
{
    let base = g.row * g.size;
    assert((g.row + 1) * g.size == base + g.size && base + g.size <= g.size * g.size && base >= 0)
        by (nonlinear_arith)
        requires
            base == g.row * g.size,
            g.row + 1 <= g.size,
    ;
    crate::heap::lemma_leads_refl(h);
    if col < g.size {
        let args = seq![n, g.row as u64, col as u64];
        lemma_sample_leads(h, f, args, unwrap, budget);
        if let Ok((h1, s)) = h.sample(f, args, unwrap, budget) {
            let g1 = g.put(col, s.value, h1.describe(s.node, 0));
            assert(h1.live(f));
            lemma_grid_row(h1, f, n, unwrap, budget, g1, col + 1);
            if let Ok((h2, g2)) = h1.grid_row(f, n, unwrap, budget, g1, col + 1) {
                crate::heap::lemma_leads_trans(h, h1, h2);
                assert forall|z: nat, v: Value, b: nat|
                    col <= z < g.size && #[trigger] pixel_term(h.term(f), n, g.row, z).samples(
                        unwrap,
                        v,
                        b,
                    ) && budget_for(budget, b) && h2.room() >= call_room(3, b) implies shows_value(
                    g2.pixels[(g.row * g.size + z) as int],
                    v,
                    g.pixels[(g.row * g.size + z) as int],
                ) by {
                    let at = seq![n, g.row as u64, z as u64];
                    lemma_pixel_term(h.term(f), n, g.row, z);
                    lemma_pixel_term(h1.term(f), n, g.row, z);
                    if z == col {
                        lemma_sample(h, f, args, unwrap, budget, v, b);
                        assert(g2.pixels[(base + z) as int] == g1.pixels[(base + z) as int]);
                    } else {
                        crate::heap::lemma_leads_node(h, h1, f);
                        lemma_at_numbers(h.term(f), h1.term(f), at);
                        lemma_samples(
                            h.term(f).at_numbers(at),
                            h1.term(f).at_numbers(at),
                            unwrap,
                            v,
                            b,
                        );
                        assert(pixel_term(h1.term(f), n, g1.row, z).samples(unwrap, v, b));
                        assert(g1.pixels[(base + z) as int] == g.pixels[(base + z) as int]);
                    }
                }
            }
        }
    }
}

/// An expression that is a number evaluates to one, within as many reductions.
pub proof fn lemma_denotes_samples(t: Term, n: u64, b: nat)
    requires
        t.denotes(n as nat, b),
    ensures
        t.samples(Unwrap::Keep, Value::Number(n), b),
{
    let (x, y) = choose|x: Term, y: Term| #[trigger]
        t.has_parts(x, y, b) && x.says((n as nat) % 2 == 1, b) && if n == 0 {
            y.says(false, b)
        } else {
            y.denotes((n as nat) / 2, b) && ((n as nat) % 2 == 0 ==> y.is_not_false(b))
        };
    let k = choose|k: nat| k <= b && #[trigger] Term::fst(t).reaches(k, x);
    let (j, u) = lemma_function_reaches(Term::app(t, Term::Atom(K)), Term::Atom(crate::node::I), k, x);
    let (i, w) = lemma_function_reaches(t, Term::Atom(K), j, u);
    crate::term::lemma_steps_reduces(t, w, i);
    crate::meaning::lemma_denotes(t, w, n as nat, b);
    assert(t.reaches(i, Term::constant(w, 0)));
    assert(t.samples_by(Unwrap::Keep, Value::Number(n), w, 0, b));
}

/// An expression that is a boolean, and no number, evaluates to one, within as
/// many reductions.
pub proof fn lemma_says_samples(t: Term, v: bool, b: nat)
    requires
        t.says(v, b),
        t.is_no_number(b),
    ensures
        t.samples(Unwrap::Keep, Value::Boolean(v), b),
{
    let k = choose|k: nat| k <= b && #[trigger] Term::ask(t).reaches(k, Term::marker(v));
    let mt = Term::Atom(crate::node::MARKER_T);
    let mf = Term::Atom(crate::node::MARKER_F);
    let (j, u) = lemma_function_reaches(Term::app(t, mt), mf, k, Term::marker(v));
    let (i, w) = lemma_function_reaches(t, mt, j, u);
    crate::term::lemma_steps_reduces(t, w, i);
    crate::meaning::lemma_says(t, w, v, b);
    crate::readings::lemma_is_no_number(t, w, b);
    assert(t.reaches(i, Term::constant(w, 0)));
    assert(t.samples_by(Unwrap::Keep, Value::Boolean(v), w, 0, b));
}

/// A function that gives something with a weak head normal form has one, within
/// as many reductions.
proof fn lemma_function_reaches(f: Term, x: Term, k: nat, w: Term) -> (r: (nat, Term))
    requires
        Term::app(f, x).reaches(k, w),
    ensures
        f.reaches(r.0, r.1),
        r.0 <= k,
    decreases k,
{
    if f.step() is None {
        (0, f)
    } else {
        crate::term::lemma_step_app(f, x);
        let (j, v) = lemma_function_reaches(f.step()->0, x, (k - 1) as nat, w);
        (j + 1, v)
    }
}

/// The text shows the value.
pub open spec fn tells_value(s: Seq<char>, v: Value) -> bool {
    match v {
        Value::Number(n) => s == crate::text::decimal(n as nat),
        Value::Boolean(x) => s == if x {
            "T"@
        } else {
            "F"@
        },
        Value::Unknown => s.len() > 0 && s[0] == '?',
    }
}

/// The first characters of a text are as many as there may be.
pub proof fn lemma_shorten(s: Seq<char>, n: nat)
    ensures
        crate::sweep::shorten(s, n).is_prefix_of(s),
        crate::sweep::shorten(s, n).len() == if s.len() < n {
            s.len()
        } else {
            n
        },
{
}

/// The text of a value shows it; what has no value is a question mark and the first
/// sixty characters of a text that tells it.
pub proof fn lemma_sample_text(h: Heap, s: crate::grid::Sample, t: Term)
    requires
        h.wf(),
        h.live(s.node),
        t.reduces(h.term(s.node)),
    ensures
        tells_value(h.sample_text(s), s.value),
        s.value is Unknown ==> exists|d: Seq<char>| #[trigger]
            t.tells(d) && h.sample_text(s).len() == 1 + if d.len() < 60 {
                d.len()
            } else {
                60
            } && h.sample_text(s).skip(1).is_prefix_of(d),
{
    reveal_strlit("?");
    let d = h.describe(s.node, 0);
    crate::shown::lemma_tells(h, s.node, t);
    lemma_shorten(d, 60);
    if s.value is Unknown {
        assert(h.sample_text(s).skip(1) =~= crate::sweep::shorten(d, 60));
        assert(t.tells(d));
    }
}

/// Trying a function at places: the places that lie in an image of `n` rows and
/// columns are tried in their order, and the text at a place shows the value of
/// the function at `n`, the row, and the column, as far as it has one there that
/// fuel and room allow.
pub proof fn lemma_sweep(
    h: Heap,
    f: u32,
    n: u64,
    places: Seq<(u64, u64)>,
    items: Seq<(u64, u64, Seq<char>)>,
)
    requires
        h.wf(),
        h.live(f),
    ensures
        h.sweep(f, n, places, items) matches Ok((h1, r)) ==> {
            &&& h.leads_to(h1)
            &&& items.is_prefix_of(r)
            &&& forall|k: int|
                items.len() <= k < r.len() ==> (#[trigger] r[k]).0 < n && r[k].1 < n
                    && places.contains((r[k].0, r[k].1))
            &&& forall|k: int|
                0 <= k < places.len() && (#[trigger] places[k]).0 < n && places[k].1 < n ==> tried(
                    r,
                    places[k],
                )
            &&& forall|k: int, v: Value, b: nat|
                items.len() <= k < r.len() && #[trigger] pixel_term(
                    h.term(f),
                    n,
                    r[k].0 as nat,
                    r[k].1 as nat,
                ).samples(Unwrap::Constants, v, b) && crate::readings::value_fuel(b) <= 500_000
                    && h1.room() >= call_room(3, b) ==> tells_value(r[k].2, v)
        },
    decreases places.len(),
{
    crate::heap::lemma_leads_refl(h);
    if places.len() > 0 {
        let (m, z) = places[0];
        let rest = places.skip(1);
        if m >= n || z >= n {
            lemma_sweep(h, f, n, rest, items);
            if let Ok((h1, r)) = h.sweep(f, n, rest, items) {
                assert forall|k: int| items.len() <= k < r.len() implies (#[trigger] r[k]).0 < n
                    && r[k].1 < n && places.contains((r[k].0, r[k].1)) by {
                    let j = choose|j: int|
                        0 <= j < rest.len() && rest[j] == ((r[k].0, r[k].1));
                    assert(places[j + 1] == rest[j]);
                }
                assert forall|k: int|
                    0 <= k < places.len() && (#[trigger] places[k]).0 < n && places[k].1
                        < n implies tried(r, places[k]) by {
                    assert(places[k] == rest[k - 1]);
                }
            }
        } else {
            let at = seq![n, m, z];
            let budget = crate::sweep::sweep_budget();
            lemma_sample_leads(h, f, at, Unwrap::Constants, budget);
            if let Ok((h1, s)) = h.sample(f, at, Unwrap::Constants, budget) {
                let item = (m, z, h1.sample_text(s));
                let more = items.push(item);
                assert(h1.live(f));
                lemma_sweep(h1, f, n, rest, more);
                if let Ok((h2, r)) = h1.sweep(f, n, rest, more) {
                    crate::heap::lemma_leads_trans(h, h1, h2);
                    assert(r[items.len() as int] == more[items.len() as int]);
                    assert forall|k: int| 0 <= k < items.len() implies items[k] == r[k] by {
                        assert(more[k] == r[k]);
                    }
                    assert(items.is_prefix_of(r));
                    assert forall|k: int| items.len() <= k < r.len() implies (#[trigger] r[k]).0 < n
                        && r[k].1 < n && places.contains((r[k].0, r[k].1)) by {
                        if k == items.len() {
                            assert(places[0] == ((m, z)));
                        } else {
                            let j = choose|j: int|
                                0 <= j < rest.len() && rest[j] == ((r[k].0, r[k].1));
                            assert(places[j + 1] == rest[j]);
                        }
                    }
                    assert forall|k: int|
                        0 <= k < places.len() && (#[trigger] places[k]).0 < n && places[k].1
                            < n implies tried(r, places[k]) by {
                        if k > 0 {
                            assert(places[k] == rest[k - 1]);
                        } else {
                            assert(is_trial(r, places[0], items.len() as int));
                        }
                    }
                    assert forall|k: int, v: Value, b: nat|
                        items.len() <= k < r.len() && #[trigger] pixel_term(
                            h.term(f),
                            n,
                            r[k].0 as nat,
                            r[k].1 as nat,
                        ).samples(Unwrap::Constants, v, b) && budget_for(budget, b) && h2.room()
                            >= call_room(3, b) implies tells_value(r[k].2, v) by {
                        let there = seq![n, r[k].0, r[k].1];
                        lemma_pixel_term(h.term(f), n, r[k].0 as nat, r[k].1 as nat);
                        lemma_pixel_term(h1.term(f), n, r[k].0 as nat, r[k].1 as nat);
                        assert(there =~= seq![n, r[k].0 as nat as u64, r[k].1 as nat as u64]);
                        if k == items.len() {
                            assert(there =~= at);
                            lemma_sample(h, f, at, Unwrap::Constants, budget, v, b);
                            reveal_strlit("?");
                        } else {
                            crate::heap::lemma_leads_node(h, h1, f);
                            lemma_at_numbers(h.term(f), h1.term(f), there);
                            lemma_samples(
                                h.term(f).at_numbers(there),
                                h1.term(f).at_numbers(there),
                                Unwrap::Constants,
                                v,
                                b,
                            );
                            assert(pixel_term(
                                h1.term(f),
                                n,
                                r[k].0 as nat,
                                r[k].1 as nat,
                            ).samples(Unwrap::Constants, v, b));
                        }
                    }
                }
            }
        }
    }
}

/// The item with the number `k` is at the place.
pub open spec fn is_trial(items: Seq<(u64, u64, Seq<char>)>, place: (u64, u64), k: int) -> bool {
    0 <= k < items.len() && items[k].0 == place.0 && items[k].1 == place.1
}

/// The place was tried.
pub open spec fn tried(items: Seq<(u64, u64, Seq<char>)>, place: (u64, u64)) -> bool {
    exists|k: int| #[trigger] is_trial(items, place, k)
}

/// The text at a place is that of the first item there, and empty if there is
/// none.
pub proof fn lemma_text_at(items: Seq<(u64, u64, Seq<char>)>, row: u64, col: u64) -> (k: nat)
    ensures
        k <= items.len(),
        forall|j: int| 0 <= j < k ==> (#[trigger] items[j]).0 != row || items[j].1 != col,
        k < items.len() ==> items[k as int].0 == row && items[k as int].1 == col
            && crate::sweep::text_at(items, row, col) == items[k as int].2,
        k == items.len() ==> crate::sweep::text_at(items, row, col) == Seq::<char>::empty(),
    decreases items.len(),
{
    if items.len() == 0 {
        0
    } else if items[0].0 == row && items[0].1 == col {
        0
    } else {
        let rest = items.skip(1);
        let k = lemma_text_at(rest, row, col);
        assert forall|j: int| 0 <= j < k + 1 implies (#[trigger] items[j]).0 != row || items[j].1
            != col by {
            if j > 0 {
                assert(items[j] == rest[j - 1]);
            }
        }
        k + 1
    }
}

/// The largest gray level becomes white; black stays black, and gray gray. In
/// between, levels keep their order and their proportion, rounded down.
pub proof fn lemma_scaled(p: u8, q: u8, max: u8)
    requires
        max > 0,
    ensures
        p == 128 ==> crate::grid::scaled(p, max) == 128,
        p == 0 ==> crate::grid::scaled(p, max) == 0,
        p == max && p != 128 ==> crate::grid::scaled(p, max) == 255,
        p > max && p != 128 ==> crate::grid::scaled(p, max) == 255,
        p <= q && p != 128 && q != 128 ==> crate::grid::scaled(p, max) <= crate::grid::scaled(q, max),
        p <= max && p != 128 ==> crate::grid::scaled(p, max) * max <= p * 255 < (crate::grid::scaled(
            p,
            max,
        ) + 1) * max,
{
    let (a, b, m) = (p as int, q as int, max as int);
    vstd::arithmetic::div_mod::lemma_fundamental_div_mod(a * 255, m);
    vstd::arithmetic::div_mod::lemma_mod_bound(a * 255, m);
    let d = a * 255 / m;
    let r = a * 255 % m;
    vstd::arithmetic::mul::lemma_mul_is_commutative(m, d);
    assert((d + 1) * m == d * m + m) by (nonlinear_arith);
    if p <= q {
        vstd::arithmetic::div_mod::lemma_div_is_ordered(a * 255, b * 255, m);
    }
    if a <= m {
        assert(d <= 255) by (nonlinear_arith)
            requires
                d * m + r == a * 255,
                0 <= r,
                a <= m,
                m > 0,
        ;
    }
    if a >= m {
        assert(d >= 255) by (nonlinear_arith)
            requires
                d * m + r == a * 255,
                r < m,
                a >= m,
                m > 0,
        ;
    }
    assert(d >= 0) by (nonlinear_arith)
        requires
            d * m + r == a * 255,
            r < m,
            a >= 0,
            m > 0,
    ;
    if p == 0 {
        assert(d == 0) by (nonlinear_arith)
            requires
                d * m + r == 0,
                0 <= r,
                d >= 0,
                m > 0,
        ;
    }
}

/// A color occurs as often as it does in the collection of all pixels.
pub proof fn lemma_occurrences(pixels: Seq<u8>, color: u8)
    ensures
        crate::grid::occurrences(pixels, color) == pixels.to_multiset().count(color),
    decreases pixels.len(),
{
    broadcast use vstd::seq_lib::group_to_multiset_ensures;

    if pixels.len() > 0 {
        lemma_occurrences(pixels.drop_last(), color);
        assert(pixels =~= pixels.drop_last().push(pixels.last()));
    } else {
        assert(pixels =~= Seq::empty());
    }
}

/// Leaves make an image where there are a hundred at least, and ten rows that
/// they fill; those are its rows.
pub proof fn lemma_rows_of_leaves(n: nat, width: nat)
    requires
        width > 0,
    ensures
        match crate::grid::rows_of_leaves(n, width) {
            Some(r) => n >= 100 && r >= 10 && r * width <= n < (r + 1) * width,
            None => n < 100 || n < 10 * width,
        },
{
    let r = n / width;
    vstd::arithmetic::div_mod::lemma_fundamental_div_mod(n as int, width as int);
    vstd::arithmetic::div_mod::lemma_mod_bound(n as int, width as int);
    vstd::arithmetic::mul::lemma_mul_is_commutative(width as int, r as int);
    assert((r + 1) * width == r * width + width) by (nonlinear_arith);
    if r < 10 {
        assert((r + 1) * width <= 10 * width) by (nonlinear_arith)
            requires
                r + 1 <= 10,
        ;
    }
}

/// The scale ends at the largest pixel that is not gray, and at one where all are
/// gray.
pub proof fn lemma_max_pixel(pixels: Seq<u8>, k: int)
    ensures
        0 <= k < pixels.len() && pixels[k] != 128 ==> pixels.contains(
            crate::grid::max_pixel(pixels),
        ) && crate::grid::max_pixel(pixels) != 128 && pixels[k] <= crate::grid::max_pixel(pixels),
        (forall|i: int| 0 <= i < pixels.len() ==> #[trigger] pixels[i] == 128)
            ==> crate::grid::max_pixel(pixels) == 1,
{
    if 0 <= k < pixels.len() && pixels[k] != 128 {
        let m = lemma_some_max(pixels, pixels.len() as int, k);
        assert(crate::grid::is_max_pixel(pixels, m));
    }
}

proof fn lemma_some_max(pixels: Seq<u8>, n: int, k: int) -> (m: u8)
    requires
        0 <= k < n <= pixels.len(),
        pixels[k] != 128,
    ensures
        m != 128,
        pixels.contains(m),
        forall|i: int| 0 <= i < n && #[trigger] pixels[i] != 128 ==> pixels[i] <= m,
    decreases n,
{
    let last = pixels[n - 1];
    if exists|j: int| 0 <= j < n - 1 && pixels[j] != 128 {
        let j = choose|j: int| 0 <= j < n - 1 && pixels[j] != 128;
        let m = lemma_some_max(pixels, n - 1, j);
        if last != 128 && last > m {
            last
        } else {
            m
        }
    } else {
        last
    }
}

/// The places that are tried are those in the first three rows and columns but for
/// the last one of them, each once: row by row those in the first two, and then the
/// others.
pub proof fn lemma_sweep_places(row: u64, col: u64)
    ensures
        crate::sweep::sweep_places().contains((row, col)) <==> row < 3 && col < 3 && !(row == 2 && col
            == 2),
        crate::sweep::sweep_places().no_duplicates(),
        crate::sweep::sweep_places().len() == 8,
        row < 2 && col < 2 ==> crate::sweep::sweep_places()[2 * row + col] == (row, col),
        crate::sweep::sweep_places()[4] == (0u64, 2u64),
        crate::sweep::sweep_places()[5] == (2u64, 0u64),
        crate::sweep::sweep_places()[6] == (2u64, 1u64),
{
    let p = crate::sweep::sweep_places();
    assert(p[0] == ((0u64, 0u64)) && p[1] == ((0u64, 1u64)) && p[2] == ((1u64, 0u64)) && p[3] == ((
        1u64,
        1u64,
    )) && p[4] == ((0u64, 2u64)) && p[5] == ((2u64, 0u64)) && p[6] == ((2u64, 1u64)) && p[7] == ((
        1u64,
        2u64,
    )));
}

/// Rows differ where the texts in the first or the second column of the first two
/// rows do.
pub proof fn lemma_differ(items: Seq<(u64, u64, Seq<char>)>)
    ensures
        crate::sweep::differ(items) <==> crate::sweep::text_at(items, 0, 0)
            != crate::sweep::text_at(items, 1, 0) || crate::sweep::text_at(items, 0, 1)
            != crate::sweep::text_at(items, 1, 1),
{
}

/// A new image is gray, and nothing is counted.
pub proof fn lemma_blank(size: nat)
    ensures
        ({
            let g = GridView::blank(size);
            &&& g.size == size && g.row == 0
            &&& g.pixels.len() == size * size
            &&& forall|i: int| 0 <= i < g.pixels.len() ==> #[trigger] g.pixels[i] == 128
            &&& g.numbers + g.booleans + g.failures == 0
            &&& g.examples.len() == 0
        }),
{
}

/// Examples stay, and never more than five are kept.
proof fn lemma_examples_kept(
    h: Heap,
    f: u32,
    n: u64,
    unwrap: Unwrap,
    budget: Budget,
    g: GridView,
    col: nat,
)
    ensures
        h.grid_row(f, n, unwrap, budget, g, col) matches Ok((_, g1)) ==> g.examples.is_prefix_of(
            g1.examples,
        ) && (g.examples.len() <= 5 ==> g1.examples.len() <= 5),
    decreases g.size - col,
{
    if col < g.size {
        if let Ok((h1, s)) = h.sample(f, seq![n, g.row as u64, col as u64], unwrap, budget) {
            let g1 = g.put(col, s.value, h1.describe(s.node, 0));
            lemma_examples_kept(h1, f, n, unwrap, budget, g1, col + 1);
            assert(g.examples.is_prefix_of(g1.examples));
        }
    }
}

/// A place without a value is an example, with its row and column, and with a text
/// that tells what stands there, unless there are five examples already.
pub proof fn lemma_grid_example(
    h: Heap,
    f: u32,
    n: u64,
    unwrap: Unwrap,
    budget: Budget,
    g: GridView,
    col: nat,
    b: nat,
)
    requires
        h.wf(),
        h.live(f),
        g.row < g.size <= u64::MAX,
        col < g.size,
        g.examples.len() < 5,
        pixel_term(h.term(f), n, g.row, col).samples(unwrap, Value::Unknown, b),
        budget_for(budget, b),
        h.room() >= call_room(3, b),
    ensures
        h.grid_row(f, n, unwrap, budget, g, col) matches Ok((_, g1)) ==> {
            let e = g1.examples[g.examples.len() as int];
            &&& g.examples.len() < g1.examples.len() <= 5
            &&& e.0 == g.row && e.1 == col
            &&& exists|x: Term, j: nat| #[trigger]
                pixel_term(h.term(f), n, g.row, col).samples_by(unwrap, Value::Unknown, x, j, b)
                    && x.tells(e.2)
        },
{
    let args = seq![n, g.row as u64, col as u64];
    lemma_pixel_term(h.term(f), n, g.row, col);
    lemma_sample(h, f, args, unwrap, budget, Value::Unknown, b);
    let (h1, s) = h.sample(f, args, unwrap, budget)->Ok_0;
    let t = pixel_term(h.term(f), n, g.row, col);
    let (x, j) = choose|x: Term, j: nat| #[trigger]
        t.samples_by(unwrap, Value::Unknown, x, j, b) && x.reduces(h1.term(s.node));
    let text = h1.describe(s.node, 0);
    crate::shown::lemma_tells(h1, s.node, x);
    let g1 = g.put(col, s.value, text);
    lemma_examples_kept(h1, f, n, unwrap, budget, g1, col + 1);
    if let Ok((_, g2)) = h1.grid_row(f, n, unwrap, budget, g1, col + 1) {
        let k = g.examples.len() as int;
        assert(g1.examples[k] == ((g.row as u64, col as u64, text)));
        assert(g2.examples[k] == g1.examples[k]);
        assert(t.samples_by(unwrap, Value::Unknown, x, j, b) && x.tells(text));
    }
}

/// A value is put into its place, and counted as what it is. Of the first five
/// places without a value the text is kept.
pub proof fn lemma_put(g: GridView, col: nat, v: Value, text: Seq<char>)
    requires
        g.row < g.size,
        col < g.size,
        g.pixels.len() == g.size * g.size,
    ensures
        ({
            let g1 = g.put(col, v, text);
            let i = (g.row * g.size + col) as int;
            &&& 0 <= i < g.pixels.len()
            &&& g1.pixels.len() == g.pixels.len()
            &&& shows_value(g1.pixels[i], v, g.pixels[i])
            &&& forall|j: int| 0 <= j < g.pixels.len() && j != i ==> g1.pixels[j] == g.pixels[j]
            &&& g1.row == g.row && g1.size == g.size
            &&& g1.numbers == g.numbers + if v is Number {
                1nat
            } else {
                0nat
            }
            &&& g1.booleans == g.booleans + if v is Boolean {
                1nat
            } else {
                0nat
            }
            &&& g1.failures == g.failures + if v is Unknown {
                1nat
            } else {
                0nat
            }
            &&& v is Unknown && g.examples.len() < 5 ==> g1.examples == g.examples.push(
                (g.row as u64, col as u64, text),
            )
            &&& !(v is Unknown && g.examples.len() < 5) ==> g1.examples == g.examples
        }),
{
    assert(0 <= g.row * g.size + col < g.size * g.size) by (nonlinear_arith)
        requires
            g.row + 1 <= g.size,
            col < g.size,
    ;
}

} // verus!
