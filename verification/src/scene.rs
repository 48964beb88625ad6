//! What drawing a quadtree promises: the pixels are the colors of the tree.

use vstd::prelude::*;
use crate::heap::Heap;
use crate::node::{I, K, S};
use crate::shared::RowReport;
use crate::term::Term;
use crate::zoom::{KnownColor, KnownQuarters, ZoomView};

verus! {

broadcast use crate::heap::group_leads;

impl Term {
    /// A tuple: a function that hands its fields to its argument.
    pub open spec fn tuple(ts: Seq<Term>) -> Term
        decreases ts.len(),
    {
        if ts.len() == 0 {
            Term::Atom(I)
        } else {
            Term::app2(
                Term::Atom(S),
                Term::tuple(ts.drop_last()),
                Term::app(Term::Atom(K), ts.last()),
            )
        }
    }

    /// The fields as a tuple hands them to `f`: `K t f` for `t`.
    pub open spec fn handed(ts: Seq<Term>, f: Term) -> Seq<Term> {
        Seq::new(ts.len(), |k: int| Term::app2(Term::Atom(K), ts[k], f))
    }
}

/// A tuple hands its fields to its argument.
proof fn lemma_tuple(ts: Seq<Term>, f: Term)
    ensures
        Term::app(Term::tuple(ts), f).steps(ts.len() + 1, Term::apply(f, Term::handed(ts, f))),
    decreases ts.len(),
{
    let t0 = Term::app(Term::tuple(ts), f);
    if ts.len() == 0 {
        reveal_with_fuel(Term::steps, 2);
        assert(t0.step() == Some(f));
    } else {
        let init = ts.drop_last();
        let kx = Term::app(Term::Atom(K), ts.last());
        let t1 = Term::app(Term::app(Term::tuple(init), f), Term::app(kx, f));
        assert(t0.step() == Some(t1)) by {
            reveal_with_fuel(Term::step, 2);
        }
        lemma_tuple(init, f);
        let inner = Term::apply(f, Term::handed(init, f));
        crate::term::lemma_steps_app(
            Term::app(Term::tuple(init), f),
            inner,
            Term::app(kx, f),
            ts.len(),
        );
        assert(Term::handed(ts, f).drop_last() =~= Term::handed(init, f));
        assert(Term::apply(f, Term::handed(ts, f)) == Term::app(inner, Term::app(kx, f)));
        assert(t1.steps(ts.len(), Term::apply(f, Term::handed(ts, f))));
    }
}

/// A tuple of five gives the field of a selector.
pub proof fn lemma_tuple_field(ts: Seq<Term>, pos: int)
    requires
        ts.len() == 5,
        0 <= pos < 5,
    ensures
        Term::app(Term::tuple(ts), Term::sel(pos)).steps((20 - 2 * pos) as nat, ts[pos]),
{
    let f = Term::sel(pos);
    let args = Term::handed(ts, f);
    let t = Term::app(Term::tuple(ts), f);
    lemma_tuple(ts, f);
    crate::intern::lemma_sel(pos, args);
    crate::term::lemma_steps_trans(
        t,
        Term::apply(f, args),
        args[pos],
        6,
        (13 - 2 * pos) as nat,
    );
    assert(args[pos].steps(1, ts[pos])) by {
        reveal_with_fuel(Term::steps, 2);
    }
    crate::term::lemma_steps_trans(t, args[pos], ts[pos], (19 - 2 * pos) as nat, 1);
}

impl Term {
    /// A field of a tuple: what it gives to a selector.
    pub open spec fn field(self, pos: int) -> Term {
        Term::app(self, Term::sel(pos))
    }

    /// The field has the weak head normal form `x`, within `b` reductions.
    pub open spec fn has_field(self, pos: int, x: Term, b: nat) -> bool {
        exists|k: nat| k <= b && #[trigger] self.field(pos).reaches(k, x)
    }

    /// The field has a weak head normal form, within `b` reductions.
    pub open spec fn has_some_field(self, pos: int, b: nat) -> bool {
        exists|x: Term| #[trigger] self.has_field(pos, x, b)
    }

    /// The fields of the quarters have weak head normal forms, within `b`
    /// reductions.
    pub open spec fn has_fields(self, b: nat) -> bool {
        &&& self.has_some_field(1, b)
        &&& self.has_some_field(2, b)
        &&& self.has_some_field(3, b)
        &&& self.has_some_field(4, b)
    }

    /// The expression picks the marker of `v`.
    pub open spec fn picks(self, v: bool) -> bool {
        exists|b: nat| #[trigger] self.says(v, b)
    }
}

proof fn lemma_field_reduces(t: Term, u: Term, pos: int)
    requires
        t.reduces(u),
    ensures
        t.field(pos).reduces(u.field(pos)),
{
    crate::term::lemma_reduces_refl(Term::sel(pos));
    crate::term::lemma_reduces_app(t, Term::sel(pos), u, Term::sel(pos));
}

/// Reduction reduces the fields of an expression.
proof fn lemma_has_field(t: Term, u: Term, pos: int, x: Term, b: nat) -> (y: Term)
    requires
        t.has_field(pos, x, b),
        t.reduces(u),
    ensures
        u.has_field(pos, y, b),
        x.reduces(y),
{
    let k = choose|k: nat| k <= b && #[trigger] t.field(pos).reaches(k, x);
    lemma_field_reduces(t, u, pos);
    let (k1, y) = crate::term::lemma_reduces_reaches(t.field(pos), u.field(pos), k, x);
    y
}

proof fn lemma_has_some_field(t: Term, u: Term, pos: int, b: nat)
    requires
        t.has_some_field(pos, b),
        t.reduces(u),
    ensures
        u.has_some_field(pos, b),
{
    let x = choose|x: Term| #[trigger] t.has_field(pos, x, b);
    let y = lemma_has_field(t, u, pos, x, b);
    assert(u.has_field(pos, y, b));
}

proof fn lemma_has_fields(t: Term, u: Term, b: nat)
    requires
        t.has_fields(b),
        t.reduces(u),
    ensures
        u.has_fields(b),
{
    lemma_has_some_field(t, u, 1, b);
    lemma_has_some_field(t, u, 2, b);
    lemma_has_some_field(t, u, 3, b);
    lemma_has_some_field(t, u, 4, b);
}

/// Reduction, forwards or backwards, does not change which marker an
/// expression picks.
pub proof fn lemma_picks(t: Term, u: Term, v: bool)
    requires
        t.reduces(u),
    ensures
        t.picks(v) == u.picks(v),
{
    if t.picks(v) {
        let b = choose|b: nat| #[trigger] t.says(v, b);
        crate::meaning::lemma_says(t, u, v, b);
    }
    if u.picks(v) {
        let b = choose|b: nat| #[trigger] u.says(v, b);
        let k = choose|k: nat| k <= b && #[trigger] Term::ask(u).reaches(k, Term::marker(v));
        crate::meaning::lemma_ask_reduces(t, u);
        let (j, w) = crate::standard::lemma_standard(
            Term::ask(t),
            Term::ask(u),
            k,
            Term::marker(v),
        );
        crate::term::lemma_reduces_normal(w, Term::marker(v));
        assert(t.says(v, j));
    }
}

/// An expression picks one marker at most.
pub proof fn lemma_picks_one(t: Term, v: bool, w: bool)
    requires
        t.picks(v),
        t.picks(w),
    ensures
        v == w,
{
    let b = choose|b: nat| #[trigger] t.says(v, b);
    let c = choose|c: nat| #[trigger] t.says(w, c);
    let q = Term::ask(t);
    let k = choose|k: nat| k <= b && #[trigger] q.reaches(k, Term::marker(v));
    let j = choose|j: nat| j <= c && #[trigger] q.reaches(j, Term::marker(w));
    crate::term::lemma_steps_reduces(q, Term::marker(v), k);
    let (i, n) = crate::term::lemma_reduces_reaches(q, Term::marker(v), j, Term::marker(w));
    crate::term::lemma_reduces_normal(Term::marker(w), n);
    assert(i == 0 && n == Term::marker(v));
}

/// Evaluating a field leads to what the field stands for; with fuel for its
/// reductions, to its weak head normal form.
pub proof fn lemma_field(h: Heap, node: u32, sel: u32, fuel: nat, pos: int)
    requires
        h.wf(),
        h.live(node),
        h.live(sel),
        Term::sel(pos).reduces(h.term(sel)),
    ensures
        h.field(node, sel, fuel) matches Ok((h1, (r, f))) ==> h.leads_to(h1) && h1.live(r) && h.term(
            node,
        ).field(pos).reduces(h1.term(r)),
        forall|x: Term, b: nat| #[trigger]
            h.term(node).has_field(pos, x, b) && fuel > b && h.room() >= 1 + 3 * b ==> (h.field(
                node,
                sel,
                fuel,
            ) matches Ok((h1, (r, f))) && f + b >= fuel && h1.room() + 1 + 3 * b >= h.room()
                && x.reduces(h1.term(r))),
{
    crate::select::lemma_apply(h, node, sel);
    let t = h.term(node);
    crate::term::lemma_reduces_refl(t);
    crate::term::lemma_reduces_app(t, Term::sel(pos), t, h.term(sel));
    if let Ok((h1, app)) = h.apply(node, sel) {
        crate::select::lemma_eval(h1, app, fuel);
        if let Ok((h2, (r, f))) = h1.eval(app, fuel) {
            crate::term::lemma_reduces_trans(t.field(pos), h1.term(app), h2.term(r));
        }
        assert forall|x: Term, b: nat| #[trigger]
            t.has_field(pos, x, b) && fuel > b && h.room() >= 1 + 3 * b implies (h1.eval(
            app,
            fuel,
        ) matches Ok((h2, (r, f))) && f + b >= fuel && h2.room() + 1 + 3 * b >= h.room()
            && x.reduces(h2.term(r))) by {
            let k = choose|k: nat| k <= b && #[trigger] t.field(pos).reaches(k, x);
            let (k1, w1) = crate::term::lemma_reduces_reaches(t.field(pos), h1.term(app), k, x);
            crate::select::lemma_eval_reaches(h1, app, fuel, k1, w1);
            let (h2, (r, f)) = h1.eval(app, fuel)->Ok_0;
            crate::term::lemma_reduces_trans(x, w1, h2.term(r));
        }
    }
}

/// A tree of colors: a color, and four quarters down to some depth.
pub enum Scene {
    Flat(bool),
    Split(bool, Box<Scene>, Box<Scene>, Box<Scene>, Box<Scene>),
}

impl Scene {
    pub open spec fn color(self) -> bool {
        match self {
            Scene::Flat(b) => b,
            Scene::Split(b, ..) => b,
        }
    }

    /// A quarter by its number, from zero. Where there are none, the scene
    /// itself stands for them.
    pub open spec fn quarter(self, q: nat) -> Scene {
        match self {
            Scene::Flat(_) => self,
            Scene::Split(_, tl, tr, bl, br) => if q == 0 {
                *tl
            } else if q == 1 {
                *tr
            } else if q == 2 {
                *bl
            } else {
                *br
            },
        }
    }

    /// There are quarters for that many levels.
    pub open spec fn deep(self, levels: nat) -> bool
        decreases levels,
    {
        levels == 0 || {
            &&& self is Split
            &&& self.quarter(0).deep((levels - 1) as nat)
            &&& self.quarter(1).deep((levels - 1) as nat)
            &&& self.quarter(2).deep((levels - 1) as nat)
            &&& self.quarter(3).deep((levels - 1) as nat)
        }
    }

    /// The tuple of a scene.
    pub open spec fn term(self) -> Term
        decreases self,
    {
        match self {
            Scene::Flat(b) => Term::tuple(
                seq![Term::boolean(b), Term::no(), Term::no(), Term::no(), Term::no()],
            ),
            Scene::Split(b, tl, tr, bl, br) => Term::tuple(
                seq![Term::boolean(b), tl.term(), tr.term(), bl.term(), br.term()],
            ),
        }
    }

    /// The fields of the tuple.
    pub open spec fn fields(self) -> Seq<Term> {
        match self {
            Scene::Flat(b) => seq![
                Term::boolean(b),
                Term::no(),
                Term::no(),
                Term::no(),
                Term::no(),
            ],
            Scene::Split(b, tl, tr, bl, br) => seq![
                Term::boolean(b),
                tl.term(),
                tr.term(),
                bl.term(),
                br.term(),
            ],
        }
    }

    /// The color at a place of a square, `levels` levels down.
    pub open spec fn color_at(self, row: nat, col: nat, size: nat, levels: nat) -> bool
        decreases levels,
    {
        if levels == 0 {
            self.color()
        } else {
            let half = size / 2;
            self.quarter(crate::shared::quarter_of(row, col, half)).color_at(
                crate::shared::within_half(row, half),
                crate::shared::within_half(col, half),
                half,
                (levels - 1) as nat,
            )
        }
    }
}

impl Term {
    /// The expression is a scene: its field zero is the color, and the other
    /// fields are the quarters.
    pub open spec fn depicts(self, s: Scene) -> bool
        decreases s,
    {
        &&& self.field(0).picks(s.color())
        &&& match s {
            Scene::Flat(_) => true,
            Scene::Split(_, tl, tr, bl, br) => self.field(1).depicts(*tl) && self.field(2).depicts(
                *tr,
            ) && self.field(3).depicts(*bl) && self.field(4).depicts(*br),
        }
    }

    /// The expression is a scene, and each of its fields takes `b` reductions
    /// at most.
    pub open spec fn depicts_within(self, s: Scene, b: nat) -> bool
        decreases s,
    {
        &&& exists|x: Term| #[trigger] self.has_field(0, x, b) && x.says(s.color(), b)
        &&& match s {
            Scene::Flat(_) => true,
            Scene::Split(_, tl, tr, bl, br) => {
                &&& exists|x: Term| #[trigger] self.has_field(1, x, b) && x.depicts_within(*tl, b)
                &&& exists|x: Term| #[trigger] self.has_field(2, x, b) && x.depicts_within(*tr, b)
                &&& exists|x: Term| #[trigger] self.has_field(3, x, b) && x.depicts_within(*bl, b)
                &&& exists|x: Term| #[trigger] self.has_field(4, x, b) && x.depicts_within(*br, b)
            },
        }
    }
}

/// Reduction, forwards or backwards, does not change the scene that an
/// expression is.
pub proof fn lemma_depicts(t: Term, u: Term, s: Scene)
    requires
        t.reduces(u),
    ensures
        t.depicts(s) == u.depicts(s),
    decreases s,
{
    lemma_field_reduces(t, u, 0);
    lemma_picks(t.field(0), u.field(0), s.color());
    if let Scene::Split(_, tl, tr, bl, br) = s {
        lemma_field_reduces(t, u, 1);
        lemma_field_reduces(t, u, 2);
        lemma_field_reduces(t, u, 3);
        lemma_field_reduces(t, u, 4);
        lemma_depicts(t.field(1), u.field(1), *tl);
        lemma_depicts(t.field(2), u.field(2), *tr);
        lemma_depicts(t.field(3), u.field(3), *bl);
        lemma_depicts(t.field(4), u.field(4), *br);
    }
}

/// A field with a weak head normal form reduces to it.
proof fn lemma_field_value(t: Term, pos: int, x: Term, b: nat)
    requires
        t.has_field(pos, x, b),
    ensures
        t.field(pos).reduces(x),
{
    let k = choose|k: nat| k <= b && #[trigger] t.field(pos).reaches(k, x);
    crate::term::lemma_steps_reduces(t.field(pos), x, k);
}

/// The quarter of an expression that is a scene within `b` reductions.
proof fn lemma_quarter_within(t: Term, s: Scene, q: nat, b: nat) -> (x: Term)
    requires
        t.depicts_within(s, b),
        s is Split,
        q < 4,
    ensures
        t.has_field(1 + q as int, x, b),
        x.depicts_within(s.quarter(q), b),
{
    let w = s.quarter(q);
    choose|x: Term| #[trigger] t.has_field(1 + q as int, x, b) && x.depicts_within(w, b)
}

/// What is a scene within some reductions is the scene.
pub proof fn lemma_within(t: Term, s: Scene, b: nat)
    requires
        t.depicts_within(s, b),
    ensures
        t.depicts(s),
        s is Split ==> t.has_fields(b),
    decreases s,
{
    let x = choose|x: Term| #[trigger] t.has_field(0, x, b) && x.says(s.color(), b);
    lemma_field_value(t, 0, x, b);
    assert(x.picks(s.color()));
    lemma_picks(t.field(0), x, s.color());
    if let Scene::Split(_, tl, tr, bl, br) = s {
        let x1 = lemma_quarter_within(t, s, 0, b);
        let x2 = lemma_quarter_within(t, s, 1, b);
        let x3 = lemma_quarter_within(t, s, 2, b);
        let x4 = lemma_quarter_within(t, s, 3, b);
        lemma_field_value(t, 1, x1, b);
        lemma_field_value(t, 2, x2, b);
        lemma_field_value(t, 3, x3, b);
        lemma_field_value(t, 4, x4, b);
        lemma_within(x1, *tl, b);
        lemma_within(x2, *tr, b);
        lemma_within(x3, *bl, b);
        lemma_within(x4, *br, b);
        lemma_depicts(t.field(1), x1, *tl);
        lemma_depicts(t.field(2), x2, *tr);
        lemma_depicts(t.field(3), x3, *bl);
        lemma_depicts(t.field(4), x4, *br);
        assert(t.has_field(1, x1, b) && t.has_field(2, x2, b) && t.has_field(3, x3, b)
            && t.has_field(4, x4, b));
    }
}

/// Reduction does not lengthen the reductions of a scene.
pub proof fn lemma_depicts_within(t: Term, u: Term, s: Scene, b: nat)
    requires
        t.depicts_within(s, b),
        t.reduces(u),
    ensures
        u.depicts_within(s, b),
    decreases s,
{
    let x = choose|x: Term| #[trigger] t.has_field(0, x, b) && x.says(s.color(), b);
    let y = lemma_has_field(t, u, 0, x, b);
    crate::meaning::lemma_says(x, y, s.color(), b);
    assert(u.has_field(0, y, b));
    if let Scene::Split(_, tl, tr, bl, br) = s {
        let x1 = lemma_quarter_within(t, s, 0, b);
        let x2 = lemma_quarter_within(t, s, 1, b);
        let x3 = lemma_quarter_within(t, s, 2, b);
        let x4 = lemma_quarter_within(t, s, 3, b);
        let y1 = lemma_has_field(t, u, 1, x1, b);
        let y2 = lemma_has_field(t, u, 2, x2, b);
        let y3 = lemma_has_field(t, u, 3, x3, b);
        let y4 = lemma_has_field(t, u, 4, x4, b);
        lemma_depicts_within(x1, y1, *tl, b);
        lemma_depicts_within(x2, y2, *tr, b);
        lemma_depicts_within(x3, y3, *bl, b);
        lemma_depicts_within(x4, y4, *br, b);
        assert(u.has_field(1, y1, b) && u.has_field(2, y2, b) && u.has_field(3, y3, b)
            && u.has_field(4, y4, b));
    }
}

/// More reductions are enough where fewer are.
proof fn lemma_more(t: Term, s: Scene, b: nat, c: nat)
    requires
        t.depicts_within(s, b),
        b <= c,
    ensures
        t.depicts_within(s, c),
    decreases s,
{
    let x = choose|x: Term| #[trigger] t.has_field(0, x, b) && x.says(s.color(), b);
    assert(t.has_field(0, x, c) && x.says(s.color(), c));
    if let Scene::Split(_, tl, tr, bl, br) = s {
        let x1 = lemma_quarter_within(t, s, 0, b);
        let x2 = lemma_quarter_within(t, s, 1, b);
        let x3 = lemma_quarter_within(t, s, 2, b);
        let x4 = lemma_quarter_within(t, s, 3, b);
        lemma_more(x1, *tl, b, c);
        lemma_more(x2, *tr, b, c);
        lemma_more(x3, *bl, b, c);
        lemma_more(x4, *br, b, c);
        assert(t.has_field(1, x1, c) && t.has_field(2, x2, c) && t.has_field(3, x3, c)
            && t.has_field(4, x4, c));
    }
}

/// A function that gives something with a weak head normal form has one.
proof fn lemma_fun_reaches(f: Term, x: Term, k: nat, w: Term) -> (r: (nat, Term))
    requires
        Term::app(f, x).reaches(k, w),
    ensures
        f.reaches(r.0, r.1),
    decreases k,
{
    if f.step() is None {
        (0, f)
    } else {
        crate::term::lemma_step_app(f, x);
        let (j, v) = lemma_fun_reaches(f.step()->0, x, (k - 1) as nat, w);
        (j + 1, v)
    }
}

/// An expression that picks a marker has a weak head normal form.
proof fn lemma_picks_reaches(t: Term, v: bool) -> (r: (nat, Term))
    requires
        t.picks(v),
    ensures
        t.reaches(r.0, r.1),
{
    let b = choose|b: nat| #[trigger] t.says(v, b);
    let k = choose|k: nat| k <= b && #[trigger] Term::ask(t).reaches(k, Term::marker(v));
    let mt = Term::Atom(crate::node::MARKER_T);
    let mf = Term::Atom(crate::node::MARKER_F);
    let (j, w) = lemma_fun_reaches(Term::app(t, mt), mf, k, Term::marker(v));
    lemma_fun_reaches(t, mt, j, w)
}

/// A field that is a scene is one within some number of reductions.
proof fn lemma_some_field(t: Term, pos: int, s: Scene) -> (r: (Term, nat))
    requires
        t.field(pos).depicts(s),
    ensures
        t.has_field(pos, r.0, r.1),
        r.0.depicts_within(s, r.1),
    decreases s, 1nat,
{
    let u = t.field(pos);
    let (j, w) = lemma_picks_reaches(u.field(0), s.color());
    let (i, x) = lemma_fun_reaches(u, Term::sel(0), j, w);
    assert(t.has_field(pos, x, i));
    lemma_field_value(t, pos, x, i);
    lemma_depicts(u, x, s);
    let b = lemma_some(x, s);
    let c = i + b;
    lemma_more(x, s, b, c);
    assert(t.has_field(pos, x, c));
    (x, c)
}

/// What is a scene is one within some number of reductions.
pub proof fn lemma_some(t: Term, s: Scene) -> (b: nat)
    requires
        t.depicts(s),
    ensures
        t.depicts_within(s, b),
    decreases s, 0nat,
{
    let (k, x) = lemma_picks_reaches(t.field(0), s.color());
    assert(t.has_field(0, x, k));
    lemma_field_value(t, 0, x, k);
    lemma_picks(t.field(0), x, s.color());
    let a = choose|a: nat| #[trigger] x.says(s.color(), a);
    match s {
        Scene::Flat(_) => {
            let c = k + a;
            assert(t.has_field(0, x, c) && x.says(s.color(), c));
            c
        },
        Scene::Split(_, tl, tr, bl, br) => {
            let (x1, b1) = lemma_some_field(t, 1, *tl);
            let (x2, b2) = lemma_some_field(t, 2, *tr);
            let (x3, b3) = lemma_some_field(t, 3, *bl);
            let (x4, b4) = lemma_some_field(t, 4, *br);
            let c = k + a + b1 + b2 + b3 + b4;
            lemma_more(x1, *tl, b1, c);
            lemma_more(x2, *tr, b2, c);
            lemma_more(x3, *bl, b3, c);
            lemma_more(x4, *br, b4, c);
            assert(t.has_field(0, x, c) && x.says(s.color(), c));
            assert(t.has_field(1, x1, c) && t.has_field(2, x2, c) && t.has_field(3, x3, c)
                && t.has_field(4, x4, c));
            c
        },
    }
}

impl Scene {
    /// The scene with another quarter in a place.
    pub open spec fn with_quarter(self, q: nat, s: Scene) -> Scene {
        match self {
            Scene::Flat(_) => self,
            Scene::Split(c, tl, tr, bl, br) => if q == 0 {
                Scene::Split(c, Box::new(s), tr, bl, br)
            } else if q == 1 {
                Scene::Split(c, tl, Box::new(s), bl, br)
            } else if q == 2 {
                Scene::Split(c, tl, tr, Box::new(s), br)
            } else {
                Scene::Split(c, tl, tr, bl, Box::new(s))
            },
        }
    }
}

impl Term {
    /// However deep one looks into the expression as a scene, each field takes
    /// `b` reductions at most.
    #[verifier::opaque]
    pub open spec fn is_steady(self, b: nat) -> bool {
        forall|s: Scene| #[trigger] self.depicts(s) ==> self.depicts_within(s, b)
    }
}

/// Reduction keeps an expression steady.
pub proof fn lemma_steady(t: Term, u: Term, b: nat)
    requires
        t.is_steady(b),
        t.reduces(u),
    ensures
        u.is_steady(b),
{
    reveal(Term::is_steady);
    assert forall|s: Scene| #[trigger] u.depicts(s) implies u.depicts_within(s, b) by {
        lemma_depicts(t, u, s);
        lemma_depicts_within(t, u, s, b);
    }
}

/// The quarters of a steady scene are steady.
proof fn lemma_quarter_steady(t: Term, s: Scene, q: nat, x: Term, b: nat)
    requires
        t.is_steady(b),
        t.depicts(s),
        s is Split,
        q < 4,
        t.has_field(1 + q as int, x, b),
    ensures
        x.is_steady(b),
{
    reveal(Term::is_steady);
    let pos = 1 + q as int;
    let k = choose|k: nat| k <= b && #[trigger] t.field(pos).reaches(k, x);
    lemma_field_value(t, pos, x, b);
    assert forall|s1: Scene| #[trigger] x.depicts(s1) implies x.depicts_within(s1, b) by {
        lemma_depicts(t.field(pos), x, s1);
        let s2 = s.with_quarter(q, s1);
        assert(t.depicts(s2));
        let y = lemma_quarter_within(t, s2, q, b);
        let j = choose|j: nat| j <= b && #[trigger] t.field(pos).reaches(j, y);
        crate::term::lemma_reaches_one(t.field(pos), k, x, j, y);
    }
}

/// The tuple of a scene is the scene, within twenty reductions.
pub proof fn lemma_scene_means(s: Scene)
    ensures
        s.term().depicts_within(s, 20),
        s.term().step() is None,
    decreases s,
{
    let fs = s.fields();
    let t = s.term();
    assert(t == Term::tuple(fs));
    assert(t.step() is None) by {
        reveal_with_fuel(Term::step, 4);
        let d = fs.drop_last();
        assert(t == Term::app2(
            Term::Atom(S),
            Term::tuple(d),
            Term::app(Term::Atom(K), fs.last()),
        ));
    }
    crate::meaning::lemma_boolean_says(s.color());
    lemma_tuple_field(fs, 0);
    let x = Term::boolean(s.color());
    assert(t.field(0).reaches(20, x));
    assert(t.has_field(0, x, 20) && x.says(s.color(), 20));
    if let Scene::Split(_, tl, tr, bl, br) = s {
        lemma_scene_means(*tl);
        lemma_scene_means(*tr);
        lemma_scene_means(*bl);
        lemma_scene_means(*br);
        lemma_tuple_field(fs, 1);
        lemma_tuple_field(fs, 2);
        lemma_tuple_field(fs, 3);
        lemma_tuple_field(fs, 4);
        assert(t.field(1).reaches(18, tl.term()));
        assert(t.field(2).reaches(16, tr.term()));
        assert(t.field(3).reaches(14, bl.term()));
        assert(t.field(4).reaches(12, br.term()));
        assert(t.has_field(1, tl.term(), 20) && t.has_field(2, tr.term(), 20) && t.has_field(
            3,
            bl.term(),
            20,
        ) && t.has_field(4, br.term(), 20));
    }
}

/// What stands in the place of quarters that are not there is no scene.
proof fn lemma_no_scene(s: Scene)
    ensures
        !Term::no().depicts(s),
{
    let t = Term::no().field(0);
    let v = s.color();
    if t.picks(v) {
        let b = choose|b: nat| #[trigger] t.says(v, b);
        let k = choose|k: nat| k <= b && #[trigger] Term::ask(t).reaches(k, Term::marker(v));
        let mt = Term::Atom(crate::node::MARKER_T);
        let mf = Term::Atom(crate::node::MARKER_F);
        assert(Term::ask(t).reaches(2, Term::app(mt, mf))) by {
            reveal_with_fuel(Term::step, 4);
            reveal_with_fuel(Term::steps, 3);
        }
        crate::term::lemma_reaches_one(Term::ask(t), k, Term::marker(v), 2, Term::app(mt, mf));
    }
}

/// A quarter of the tuple of a scene.
proof fn lemma_scene_quarter(s: Scene, q: nat, u: Scene)
    requires
        q < 4,
        s.term().field(1 + q as int).depicts(u),
    ensures
        s is Split,
        s.term().has_field(1 + q as int, s.quarter(q).term(), 20),
        s.quarter(q).term().depicts(u),
{
    let pos = 1 + q as int;
    let fs = s.fields();
    let t = s.term();
    lemma_tuple_field(fs, pos);
    crate::term::lemma_steps_reduces(t.field(pos), fs[pos], (20 - 2 * pos) as nat);
    lemma_depicts(t.field(pos), fs[pos], u);
    lemma_no_scene(u);
    lemma_scene_means(s.quarter(q));
    assert(fs[pos] == s.quarter(q).term());
    assert(t.field(pos).reaches((20 - 2 * pos) as nat, fs[pos]));
}

proof fn lemma_scene_within(s: Scene, u: Scene)
    requires
        s.term().depicts(u),
    ensures
        s.term().depicts_within(u, 20),
    decreases u,
{
    let t = s.term();
    lemma_scene_means(s);
    lemma_within(t, s, 20);
    lemma_picks_one(t.field(0), s.color(), u.color());
    if let Scene::Split(_, tl, tr, bl, br) = u {
        lemma_scene_quarter(s, 0, *tl);
        lemma_scene_quarter(s, 1, *tr);
        lemma_scene_quarter(s, 2, *bl);
        lemma_scene_quarter(s, 3, *br);
        lemma_scene_within(s.quarter(0), *tl);
        lemma_scene_within(s.quarter(1), *tr);
        lemma_scene_within(s.quarter(2), *bl);
        lemma_scene_within(s.quarter(3), *br);
        assert(t.has_field(1, s.quarter(0).term(), 20));
        assert(t.has_field(2, s.quarter(1).term(), 20));
        assert(t.has_field(3, s.quarter(2).term(), 20));
        assert(t.has_field(4, s.quarter(3).term(), 20));
    }
}

/// The tuple of a scene is steady: twenty reductions are enough everywhere.
pub proof fn lemma_scene_steady(s: Scene)
    ensures
        s.term().is_steady(20),
{
    reveal(Term::is_steady);
    assert forall|u: Scene| #[trigger] s.term().depicts(u) implies s.term().depicts_within(
        u,
        20,
    ) by {
        lemma_scene_within(s, u);
    }
}

impl Heap {
    /// The nodes stand for the selectors of the five fields.
    pub open spec fn are_sels(self, sels: Seq<u32>) -> bool {
        &&& sels.len() == 5
        &&& forall|p: int|
            0 <= p < 5 ==> self.live(#[trigger] sels[p]) && Term::sel(p).reduces(self.term(sels[p]))
    }

    /// The node stands for a scene.
    pub open spec fn shows(self, node: u32, s: Scene) -> bool {
        self.live(node) && self.term(node).depicts(s)
    }

    /// The node stands for a scene, and each field takes `b` reductions at
    /// most.
    pub open spec fn shows_within(self, node: u32, s: Scene, b: nat) -> bool {
        self.live(node) && self.term(node).depicts_within(s, b)
    }

    /// The quarters stand for scenes.
    pub open spec fn shows_all(self, z: ZoomView, ss: Seq<Scene>) -> bool {
        &&& ss.len() == 4
        &&& self.are_sels(z.sels)
        &&& self.shows(z.tl, ss[0])
        &&& self.shows(z.tr, ss[1])
        &&& self.shows(z.bl, ss[2])
        &&& self.shows(z.br, ss[3])
    }

    /// The quarters stand for scenes, and each field takes `b` reductions at
    /// most.
    pub open spec fn shows_all_within(self, z: ZoomView, ss: Seq<Scene>, b: nat) -> bool {
        &&& ss.len() == 4
        &&& self.are_sels(z.sels)
        &&& self.shows_within(z.tl, ss[0], b)
        &&& self.shows_within(z.tr, ss[1], b)
        &&& self.shows_within(z.bl, ss[2], b)
        &&& self.shows_within(z.br, ss[3], b)
    }

    /// The quarters that are known of a node are steady.
    pub open spec fn is_steady_known(self, k: KnownQuarters, b: nat) -> bool {
        &&& self.live(k.tl) && self.term(k.tl).is_steady(b)
        &&& self.live(k.tr) && self.term(k.tr).is_steady(b)
        &&& self.live(k.bl) && self.term(k.bl).is_steady(b)
        &&& self.live(k.br) && self.term(k.br).is_steady(b)
    }

    /// What is looked at is steady, and so is what is known.
    #[verifier::opaque]
    pub open spec fn all_steady(self, z: ZoomView, b: nat) -> bool {
        &&& self.live(z.tl) && self.term(z.tl).is_steady(b)
        &&& self.live(z.tr) && self.term(z.tr).is_steady(b)
        &&& self.live(z.bl) && self.term(z.bl).is_steady(b)
        &&& self.live(z.br) && self.term(z.br).is_steady(b)
        &&& forall|i: int|
            0 <= i < z.quarters.len() ==> self.is_steady_known(#[trigger] z.quarters[i], b)
    }

    /// The quarters of what is looked at have weak head normal forms, within
    /// `b` reductions.
    pub open spec fn all_have_fields(self, z: ZoomView, b: nat) -> bool {
        &&& self.term(z.tl).has_fields(b)
        &&& self.term(z.tr).has_fields(b)
        &&& self.term(z.bl).has_fields(b)
        &&& self.term(z.br).has_fields(b)
    }
}

pub(crate) proof fn lemma_sels_still(h: Heap, h1: Heap, sels: Seq<u32>)
    requires
        h.leads_to(h1),
        h.are_sels(sels),
    ensures
        h1.are_sels(sels),
{
    assert forall|p: int| 0 <= p < 5 implies h1.live(#[trigger] sels[p]) && Term::sel(p).reduces(
        h1.term(sels[p]),
    ) by {
        assert(h.live(sels[p]));
        crate::laws::lemma_still(h, h1, sels[p], Term::sel(p));
    }
}

pub(crate) proof fn lemma_show_still(h: Heap, h1: Heap, node: u32, s: Scene)
    requires
        h.leads_to(h1),
        h.shows(node, s),
    ensures
        h1.shows(node, s),
{
    crate::heap::lemma_leads_node(h, h1, node);
    lemma_depicts(h.term(node), h1.term(node), s);
}

pub(crate) proof fn lemma_shows_still(h: Heap, h1: Heap, z: ZoomView, ss: Seq<Scene>)
    requires
        h.leads_to(h1),
        h.shows_all(z, ss),
    ensures
        h1.shows_all(z, ss),
{
    lemma_sels_still(h, h1, z.sels);
    lemma_show_still(h, h1, z.tl, ss[0]);
    lemma_show_still(h, h1, z.tr, ss[1]);
    lemma_show_still(h, h1, z.bl, ss[2]);
    lemma_show_still(h, h1, z.br, ss[3]);
}

proof fn lemma_within_still(h: Heap, h1: Heap, node: u32, s: Scene, b: nat)
    requires
        h.leads_to(h1),
        h.shows_within(node, s, b),
    ensures
        h1.shows_within(node, s, b),
{
    crate::heap::lemma_leads_node(h, h1, node);
    lemma_depicts_within(h.term(node), h1.term(node), s, b);
}

pub(crate) proof fn lemma_all_within_still(h: Heap, h1: Heap, z: ZoomView, ss: Seq<Scene>, b: nat)
    requires
        h.leads_to(h1),
        h.shows_all_within(z, ss, b),
    ensures
        h1.shows_all_within(z, ss, b),
{
    lemma_sels_still(h, h1, z.sels);
    lemma_within_still(h, h1, z.tl, ss[0], b);
    lemma_within_still(h, h1, z.tr, ss[1], b);
    lemma_within_still(h, h1, z.bl, ss[2], b);
    lemma_within_still(h, h1, z.br, ss[3], b);
}

proof fn lemma_fields_still(h: Heap, h1: Heap, node: u32, b: nat)
    requires
        h.leads_to(h1),
        h.live(node),
        h.term(node).has_fields(b),
    ensures
        h1.term(node).has_fields(b),
{
    crate::heap::lemma_leads_node(h, h1, node);
    lemma_has_fields(h.term(node), h1.term(node), b);
}

/// The quarters that evaluation gives are the fields of the node, as far as it
/// got; it succeeds where the fields have weak head normal forms that fuel and
/// room allow.
pub proof fn lemma_eval_quarters(h: Heap, sels: Seq<u32>, p: u32, fuel: nat, b: nat)
    requires
        h.wf(),
        h.are_sels(sels),
        h.live(p),
    ensures
        h.eval_quarters(sels, p, fuel) matches Ok((h1, k)) ==> h.leads_to(h1) && k.parent == p
            && h1.knows_by(k, h.term(p)),
        h.term(p).has_fields(b) && fuel > b && h.room() >= 4 + 12 * b ==> (h.eval_quarters(
            sels,
            p,
            fuel,
        ) matches Ok((h1, k)) && h1.room() + 4 + 12 * b >= h.room()),
{
    let t = h.term(p);
    let go = t.has_fields(b) && fuel > b && h.room() >= 4 + 12 * b;
    crate::term::lemma_reduces_refl(t);
    assert(h.live(sels[1]));
    lemma_field(h, p, sels[1], fuel, 1);
    if go {
        let x = choose|x: Term| #[trigger] t.has_field(1, x, b);
        assert(h.term(p).has_field(1, x, b));
    }
    if let Ok((h1, (tl, _))) = h.field(p, sels[1], fuel) {
        lemma_sels_still(h, h1, sels);
        crate::heap::lemma_leads_node(h, h1, p);
        let t1 = h1.term(p);
        assert(h1.live(sels[2]) && h1.live(p));
        lemma_field(h1, p, sels[2], fuel, 2);
        lemma_field_reduces(t, t1, 2);
        if go {
            lemma_has_fields(t, t1, b);
            let x = choose|x: Term| #[trigger] t1.has_field(2, x, b);
            assert(h1.term(p).has_field(2, x, b));
        }
        if let Ok((h2, (tr, _))) = h1.field(p, sels[2], fuel) {
            crate::term::lemma_reduces_trans(t.field(2), t1.field(2), h2.term(tr));
            lemma_sels_still(h1, h2, sels);
            crate::heap::lemma_leads_node(h, h2, p);
            let t2 = h2.term(p);
            assert(h2.live(sels[3]) && h2.live(p));
            lemma_field(h2, p, sels[3], fuel, 3);
            lemma_field_reduces(t, t2, 3);
            if go {
                lemma_has_fields(t, t2, b);
                let x = choose|x: Term| #[trigger] t2.has_field(3, x, b);
                assert(h2.term(p).has_field(3, x, b));
            }
            if let Ok((h3, (bl, _))) = h2.field(p, sels[3], fuel) {
                crate::term::lemma_reduces_trans(t.field(3), t2.field(3), h3.term(bl));
                lemma_sels_still(h2, h3, sels);
                crate::heap::lemma_leads_node(h, h3, p);
                let t3 = h3.term(p);
                assert(h3.live(sels[4]) && h3.live(p));
                lemma_field(h3, p, sels[4], fuel, 4);
                lemma_field_reduces(t, t3, 4);
                if go {
                    lemma_has_fields(t, t3, b);
                    let x = choose|x: Term| #[trigger] t3.has_field(4, x, b);
                    assert(h3.term(p).has_field(4, x, b));
                }
                if let Ok((h4, (br, _))) = h3.field(p, sels[4], fuel) {
                    crate::term::lemma_reduces_trans(t.field(4), t3.field(4), h4.term(br));
                    crate::laws::lemma_still(h1, h4, tl, t.field(1));
                    crate::laws::lemma_still(h2, h4, tr, t.field(2));
                    crate::laws::lemma_still(h3, h4, bl, t.field(3));
                    crate::laws::lemma_still(h, h4, p, t);
                }
            }
        }
    }
}

impl Heap {
    /// The known color is the one that the field zero of the node picks.
    pub open spec fn is_true_color(self, k: KnownColor) -> bool {
        &&& self.live(k.node)
        &&& k.color matches Some(v) && self.term(k.node).field(0).picks(v)
    }

    /// What is known of colors is true.
    #[verifier::opaque]
    pub open spec fn knows_colors(self, known: Seq<KnownColor>) -> bool {
        forall|i: int| 0 <= i < known.len() ==> self.is_true_color(#[trigger] known[i])
    }
}

pub(crate) proof fn lemma_colors_still(h: Heap, h1: Heap, known: Seq<KnownColor>)
    requires
        h.leads_to(h1),
        h.knows_colors(known),
    ensures
        h1.knows_colors(known),
{
    reveal(Heap::knows_colors);
    assert forall|i: int| 0 <= i < known.len() implies h1.is_true_color(#[trigger] known[i]) by {
        let n = known[i].node;
        assert(h.is_true_color(known[i]));
        crate::heap::lemma_leads_node(h, h1, n);
        lemma_field_reduces(h.term(n), h1.term(n), 0);
        lemma_picks(h.term(n).field(0), h1.term(n).field(0), known[i].color->0);
    }
}

pub(crate) proof fn lemma_steady_still(h: Heap, h1: Heap, node: u32, b: nat)
    requires
        h.leads_to(h1),
        h.live(node),
        h.term(node).is_steady(b),
    ensures
        h1.live(node),
        h1.term(node).is_steady(b),
{
    crate::heap::lemma_leads_node(h, h1, node);
    lemma_steady(h.term(node), h1.term(node), b);
}

/// A quarter of a steady scene evaluates to a steady one.
proof fn lemma_field_steady(h: Heap, p: u32, sel: u32, fuel: nat, q: nat, s: Scene, b: nat)
    requires
        h.wf(),
        h.shows(p, s),
        h.term(p).is_steady(b),
        s is Split,
        q < 4,
        h.live(sel),
        Term::sel(1 + q as int).reduces(h.term(sel)),
        fuel > b,
        h.room() >= 1 + 3 * b,
    ensures
        h.field(p, sel, fuel) matches Ok((h1, (r, _))) && {
            &&& h.leads_to(h1)
            &&& h1.room() + 1 + 3 * b >= h.room()
            &&& h1.live(r) && h1.term(r).is_steady(b)
            &&& h1.shows(p, s) && h1.term(p).is_steady(b)
        },
{
    let t = h.term(p);
    let pos = 1 + q as int;
    assert(t.depicts_within(s, b)) by {
        reveal(Term::is_steady);
    }
    let x = lemma_quarter_within(t, s, q, b);
    lemma_field(h, p, sel, fuel, pos);
    assert(h.term(p).has_field(pos, x, b));
    lemma_quarter_steady(t, s, q, x, b);
    let (h1, (r, _)) = h.field(p, sel, fuel)->Ok_0;
    lemma_steady(x, h1.term(r), b);
    lemma_show_still(h, h1, p, s);
    lemma_steady_still(h, h1, p, b);
}

/// The quarters of a steady scene evaluate to steady ones.
pub(crate) proof fn lemma_eval_steady(h: Heap, sels: Seq<u32>, p: u32, fuel: nat, s: Scene, b: nat)
    requires
        h.wf(),
        h.are_sels(sels),
        h.shows(p, s),
        h.term(p).is_steady(b),
        s is Split,
        fuel > b,
        h.room() >= 4 + 12 * b,
    ensures
        h.eval_quarters(sels, p, fuel) matches Ok((h1, k)) && h1.is_steady_known(k, b),
{
    assert(h.live(sels[1]));
    lemma_field_steady(h, p, sels[1], fuel, 0, s, b);
    let (h1, (tl, _)) = h.field(p, sels[1], fuel)->Ok_0;
    lemma_sels_still(h, h1, sels);
    assert(h1.live(sels[2]));
    lemma_field_steady(h1, p, sels[2], fuel, 1, s, b);
    let (h2, (tr, _)) = h1.field(p, sels[2], fuel)->Ok_0;
    lemma_sels_still(h1, h2, sels);
    assert(h2.live(sels[3]));
    lemma_field_steady(h2, p, sels[3], fuel, 2, s, b);
    let (h3, (bl, _)) = h2.field(p, sels[3], fuel)->Ok_0;
    lemma_sels_still(h2, h3, sels);
    assert(h3.live(sels[4]));
    lemma_field_steady(h3, p, sels[4], fuel, 3, s, b);
    let (h4, (br, _)) = h3.field(p, sels[4], fuel)->Ok_0;
    lemma_steady_still(h1, h4, tl, b);
    lemma_steady_still(h2, h4, tr, b);
    lemma_steady_still(h3, h4, bl, b);
}

/// The color of a node that stands for a scene is the color of the scene,
/// whether it was known or not.
pub proof fn lemma_get_color(h: Heap, z: ZoomView, node: u32, fuel: nat, s: Scene, b: nat)
    requires
        h.wf(),
        z.wf(h),
        h.are_sels(z.sels),
        h.knows_colors(z.colors),
        h.shows_within(node, s, b),
        fuel > b,
        b < 5_000_000,
        h.room() >= 5 + 6 * b,
    ensures
        h.get_color(z, node, fuel) matches Ok((h1, (c, z1))) && {
            &&& c == Some(s.color())
            &&& h.leads_to(h1)
            &&& h1.room() + 5 + 6 * b >= h.room()
            &&& z1 == (ZoomView { colors: z1.colors, ..z })
            &&& z1.wf(h1)
            &&& h1.knows_colors(z1.colors)
        },
{
    reveal(Heap::get_color);
    let n = h.follow(node);
    crate::graph::lemma_follow(h.graph, node, h.graph.ranking());
    assert(h.live(n));
    let t = h.term(n);
    lemma_within(t, s, b);
    crate::heap::lemma_leads_refl(h);
    crate::table::lemma_first(z.colors, n);
    match crate::table::first_with(z.colors, n) {
        Some(k) => {
            reveal(Heap::knows_colors);
            let i = choose|i: int| 0 <= i < z.colors.len() && z.colors[i] == k;
            assert(h.is_true_color(z.colors[i]));
            lemma_picks_one(t.field(0), k.color->0, s.color());
        },
        None => {
            assert(h.live(z.sels[0]));
            let x = choose|x: Term| #[trigger] t.has_field(0, x, b) && x.says(s.color(), b);
            lemma_field(h, n, z.sels[0], fuel, 0);
            assert(h.term(n).has_field(0, x, b));
            let (h1, (cond, _)) = h.field(n, z.sels[0], fuel)->Ok_0;
            crate::meaning::lemma_read_bool(h1, cond, 5_000_000, x, s.color(), b);
            let (h2, color) = h1.decode_bool(cond, 5_000_000)->Ok_0;
            let k = KnownColor { node: n, color };
            let colors = z.colors.push(k);
            lemma_colors_still(h, h2, z.colors);
            crate::heap::lemma_leads_node(h, h2, n);
            lemma_field_reduces(t, h2.term(n), 0);
            lemma_picks(t.field(0), h2.term(n).field(0), s.color());
            assert(h2.knows_colors(colors)) by {
                reveal(Heap::knows_colors);
                assert forall|i: int| 0 <= i < colors.len() implies h2.is_true_color(
                    #[trigger] colors[i],
                ) by {
                    if i < z.colors.len() {
                        assert(colors[i] == z.colors[i]);
                        assert(h2.is_true_color(z.colors[i]));
                    }
                }
            }
            crate::zoom::lemma_zoom_leads(z, h, h2);
            crate::zoom::lemma_add_color(z, h2, k);
        },
    }
}

/// Going down leads to the part of the scene at that place.
proof fn lemma_descend(
    h: Heap,
    sels: Seq<u32>,
    node: u32,
    row: nat,
    col: nat,
    size: nat,
    levels: nat,
    fuel: nat,
    s: Scene,
    b: nat,
) -> (r: (Heap, u32, Scene))
    requires
        h.wf(),
        h.are_sels(sels),
        h.shows_within(node, s, b),
        s.deep(levels),
        fuel > b,
        h.room() >= (1 + 3 * b) * levels,
    ensures
        h.descend(sels, node, row, col, size, levels, fuel) == Ok::<
            (Heap, Option<u32>),
            crate::heap::AllocError,
        >((r.0, Some(r.1))),
        h.leads_to(r.0),
        r.0.room() + (1 + 3 * b) * levels >= h.room(),
        r.0.shows_within(r.1, r.2, b),
        r.2.color() == s.color_at(row, col, size, levels),
    decreases levels,
{
    if levels == 0 {
        crate::heap::lemma_leads_refl(h);
        assert((1 + 3 * b) * 0 == 0) by (nonlinear_arith);
        (h, node, s)
    } else {
        let half = size / 2;
        let q = crate::shared::quarter_of(row, col, half);
        let pos = 1 + q as int;
        let m = (levels - 1) as nat;
        let c = 1 + 3 * b;
        assert(c * levels == c * m + c && c * m >= 0) by (nonlinear_arith)
            requires
                levels == m + 1,
                c >= 0,
        ;
        assert(s.quarter(q).deep(m));
        let x = lemma_quarter_within(h.term(node), s, q, b);
        assert(h.live(sels[pos]));
        lemma_field(h, node, sels[pos], fuel, pos);
        assert(h.term(node).has_field(pos, x, b));
        let (h1, (child, f)) = h.field(node, sels[pos], fuel)->Ok_0;
        lemma_depicts_within(x, h1.term(child), s.quarter(q), b);
        lemma_sels_still(h, h1, sels);
        lemma_descend(
            h1,
            sels,
            child,
            crate::shared::within_half(row, half),
            crate::shared::within_half(col, half),
            half,
            m,
            fuel,
            s.quarter(q),
            b,
        )
    }
}

/// The color of the scene at a place of the whole image.
pub open spec fn color_of(ss: Seq<Scene>, row: nat, col: nat, size: nat) -> bool {
    let half = size / 2;
    ss[crate::shared::quarter_of(row, col, half) as int].color_at(
        crate::shared::within_half(row, half),
        crate::shared::within_half(col, half),
        half,
        crate::shared::floor_log2(half),
    )
}

/// Enough room for a pixel of an image of `size` columns, where each field takes
/// `b` reductions.
pub open spec fn pixel_room(size: nat, b: nat) -> nat {
    (1 + 3 * b) * crate::shared::floor_log2(size / 2) + 5 + 6 * b
}

/// A pixel is the color of the scene at its place.
pub proof fn lemma_shared_pixel(
    h: Heap,
    z: ZoomView,
    row: nat,
    col: nat,
    size: nat,
    fuel: nat,
    ss: Seq<Scene>,
    b: nat,
)
    requires
        h.wf(),
        h.shows_all_within(z, ss, b),
        forall|q: int|
            0 <= q < 4 ==> (#[trigger] ss[q]).deep(crate::shared::floor_log2(size / 2)),
        fuel > b,
        h.room() >= pixel_room(size, b),
    ensures
        h.shared_pixel(z, row, col, size, fuel) matches Ok((h1, p)) && h.leads_to(h1) && h1.room()
            + pixel_room(size, b) >= h.room() && p == crate::shared::light(
            Some(color_of(ss, row, col, size)),
        ),
{
    reveal(Heap::shared_pixel);
    let half = size / 2;
    let q = crate::shared::quarter_of(row, col, half);
    let s = ss[q as int];
    assert(h.shows_within(z.root(q), s, b));
    let (h1, node, t) = lemma_descend(
        h,
        z.sels,
        z.root(q),
        crate::shared::within_half(row, half),
        crate::shared::within_half(col, half),
        half,
        crate::shared::floor_log2(half),
        fuel,
        s,
        b,
    );
    lemma_sels_still(h, h1, z.sels);
    assert(h1.live(z.sels[0]));
    let u = h1.term(node);
    let x = choose|x: Term| #[trigger] u.has_field(0, x, b) && x.says(t.color(), b);
    lemma_field(h1, node, z.sels[0], fuel, 0);
    assert(h1.term(node).has_field(0, x, b));
    let (h2, (cond, f)) = h1.field(node, z.sels[0], fuel)->Ok_0;
    crate::meaning::lemma_read_bool(h2, cond, fuel, x, t.color(), b);
}

pub(crate) proof fn lemma_shared_row(
    h: Heap,
    z: ZoomView,
    row: nat,
    col: nat,
    size: nat,
    fuel: nat,
    pixels: Seq<u8>,
    ss: Seq<Scene>,
    b: nat,
)
    requires
        h.wf(),
        h.shows_all_within(z, ss, b),
        forall|q: int|
            0 <= q < 4 ==> (#[trigger] ss[q]).deep(crate::shared::floor_log2(size / 2)),
        fuel > b,
        col <= size,
        h.room() >= (size - col) * pixel_room(size, b),
    ensures
        h.shared_row(z, row, col, size, fuel, pixels) matches Ok((h1, p)) && h.leads_to(h1)
            && h1.room() + (size - col) * pixel_room(size, b)
            >= h.room() && p == pixels + Seq::new(
            (size - col) as nat,
            |k: int| crate::shared::light(Some(color_of(ss, row, (col + k) as nat, size))),
        ),
    decreases size - col,
{
    let cost = pixel_room(size, b);
    if col >= size {
        crate::heap::lemma_leads_refl(h);
        assert(pixels + Seq::<u8>::empty() =~= pixels);
        assert(Seq::new(
            0nat,
            |k: int| crate::shared::light(Some(color_of(ss, row, (col + k) as nat, size))),
        ) =~= Seq::<u8>::empty());
    } else {
        assert((size - col) * cost == (size - (col + 1)) * cost + cost) by (nonlinear_arith);
        assert((size - (col + 1)) * cost >= 0) by (nonlinear_arith)
            requires
                size - (col + 1) >= 0,
                cost >= 0,
        ;
        lemma_shared_pixel(h, z, row, col, size, fuel, ss, b);
        let (h1, p) = h.shared_pixel(z, row, col, size, fuel)->Ok_0;
        lemma_all_within_still(h, h1, z, ss, b);
        lemma_shared_row(h1, z, row, col + 1, size, fuel, pixels.push(p), ss, b);
        assert(pixels.push(p) + Seq::new(
            (size - (col + 1)) as nat,
            |k: int| crate::shared::light(Some(color_of(ss, row, (col + 1 + k) as nat, size))),
        ) =~= pixels + Seq::new(
            (size - col) as nat,
            |k: int| crate::shared::light(Some(color_of(ss, row, (col + k) as nat, size))),
        ));
    }
}

/// A collection leaves at least as much room as there was.
pub proof fn lemma_gc_room(h: Heap, roots: Seq<u32>)
    requires
        h.wf(),
        h.live_roots(roots),
    ensures
        h.gc(roots).room() >= h.room(),
{
    let g = h.graph;
    let f1 = h.gc(roots).graph.free;
    crate::gc::lemma_gc(h, roots);
    crate::gc::lemma_garbage(g, roots + h.roots, g.nodes.len());
    assert(f1.no_duplicates());
    assert forall|i: u32| g.free.contains(i) implies f1.contains(i) by {
        let k = choose|k: int| 0 <= k < g.free.len() && g.free[k] == i;
        assert(g.free[k] < g.nodes.len());
        if !f1.contains(i) {
            assert(h.gc(roots).live(i));
            assert(h.live(i));
        }
    }
    g.free.unique_seq_to_set();
    f1.unique_seq_to_set();
    assert(g.free.to_set().subset_of(f1.to_set()));
    vstd::set_lib::lemma_len_subset(g.free.to_set(), f1.to_set());
}

/// The nodes of a place stand for the same over a collection.
pub(crate) proof fn lemma_nodes_gc(h: Heap, z: ZoomView)
    requires
        h.wf(),
        z.wf(h),
    ensures
        h.gc_zoom(z).wf(),
        z.wf(h.gc_zoom(z)),
        h.gc_zoom(z).room() >= h.room(),
        h.gc_zoom(z).live2(z.tl, z.tr) && h.gc_zoom(z).live2(z.bl, z.br),
        h.gc_zoom(z).term(z.tl) == h.term(z.tl),
        h.gc_zoom(z).term(z.tr) == h.term(z.tr),
        h.gc_zoom(z).term(z.bl) == h.term(z.bl),
        h.gc_zoom(z).term(z.br) == h.term(z.br),
        h.are_sels(z.sels) ==> h.gc_zoom(z).are_sels(z.sels),
{
    let h1 = h.gc_zoom(z);
    let n = z.needed();
    crate::zoom::lemma_gc_zoom(z, h);
    crate::zoom::lemma_needed(z, h1);
    assert forall|k: int| 0 <= k < n.len() implies h.live(#[trigger] n[k]) by {}
    lemma_gc_room(h, n);
    if h.are_sels(z.sels) {
        assert forall|p: int| 0 <= p < 5 implies h1.live(#[trigger] z.sels[p]) && Term::sel(
            p,
        ).reduces(h1.term(z.sels[p])) by {
            assert(n[p] == z.sels[p]);
            assert(h.live(z.sels[p]));
        }
    }
    assert(n[5] == z.tl && n[6] == z.tr && n[7] == z.bl && n[8] == z.br);
}

/// The image of the scenes, row by row.
pub open spec fn scene_pixels(ss: Seq<Scene>, size: nat) -> Seq<u8> {
    Seq::new(
        size * size,
        |i: int|
            crate::shared::light(
                Some(color_of(ss, (i / size as int) as nat, (i % size as int) as nat, size)),
            ),
    )
}

proof fn lemma_shared_rows(
    h: Heap,
    z: ZoomView,
    row: nat,
    size: nat,
    fuel: nat,
    min_free: nat,
    pixels: Seq<u8>,
    rows: Seq<RowReport>,
    ss: Seq<Scene>,
    b: nat,
)
    requires
        h.wf(),
        z.wf(h),
        h.shows_all_within(z, ss, b),
        forall|q: int|
            0 <= q < 4 ==> (#[trigger] ss[q]).deep(crate::shared::floor_log2(size / 2)),
        fuel > b,
        row <= size,
        pixels.len() == row * size,
        h.room() >= (size - row) * (size * pixel_room(size, b)),
        forall|i: int| 0 <= i < pixels.len() ==> #[trigger] pixels[i] == scene_pixels(ss, size)[i],
    ensures
        h.shared_rows(z, row, size, fuel, min_free, pixels, rows) matches Ok((h1, (p, _))) && p
            == scene_pixels(ss, size),
    decreases size - row,
{
    let cost = pixel_room(size, b);
    let row_cost = size * cost;
    if row >= size {
        assert(pixels =~= scene_pixels(ss, size));
    } else {
        assert((size - row) * row_cost == (size - (row + 1)) * row_cost + row_cost)
            by (nonlinear_arith);
        assert((size - (row + 1)) * row_cost >= 0 && row_cost >= 0) by (nonlinear_arith)
            requires
                size - (row + 1) >= 0,
                row_cost == size * cost,
                size >= 0,
                cost >= 0,
        ;
        assert((size - 0) * cost == row_cost);
        lemma_shared_row(h, z, row, 0, size, fuel, pixels, ss, b);
        let (h1, p) = h.shared_row(z, row, 0, size, fuel, pixels)->Ok_0;
        lemma_all_within_still(h, h1, z, ss, b);
        crate::zoom::lemma_zoom_leads(z, h, h1);
        lemma_nodes_gc(h1, z);
        assert(row * size + size == (row + 1) * size) by (nonlinear_arith);
        assert((row + 1) * size <= size * size) by (nonlinear_arith)
            requires
                row + 1 <= size,
        ;
        assert forall|i: int| 0 <= i < p.len() implies #[trigger] p[i] == scene_pixels(
            ss,
            size,
        )[i] by {
            if i < pixels.len() {
                assert(p[i] == pixels[i]);
            } else {
                let c = i - row * size;
                vstd::arithmetic::div_mod::lemma_fundamental_div_mod_converse(
                    i,
                    size as int,
                    row as int,
                    c,
                );
            }
        }
        let low = h1.graph.free.len() < min_free;
        let h2 = if low {
            h1.gc_zoom(z)
        } else {
            h1
        };
        let report = RowReport {
            nodes: h1.graph.nodes.len() as usize,
            free: h1.graph.free.len() as usize,
            gc: if low {
                Some(h2.report(h1))
            } else {
                None
            },
        };
        lemma_shared_rows(h2, z, row + 1, size, fuel, min_free, p, rows.push(report), ss, b);
    }
}

/// The quarters are drawn as the scenes that they stand for, whatever is
/// collected on the way.
pub proof fn lemma_render_shared(
    h: Heap,
    z: ZoomView,
    size: nat,
    fuel: nat,
    min_free: nat,
    ss: Seq<Scene>,
    b: nat,
)
    requires
        h.wf(),
        z.wf(h),
        h.shows_all_within(z, ss, b),
        forall|q: int|
            0 <= q < 4 ==> (#[trigger] ss[q]).deep(crate::shared::floor_log2(size / 2)),
        fuel > b,
        h.room() >= size * (size * pixel_room(size, b)),
    ensures
        h.shared_rows(z, 0, size, fuel, min_free, Seq::empty(), Seq::empty()) matches Ok(
            (h1, (p, _)),
        ) && p == scene_pixels(ss, size),
{
    assert(0 * size == 0) by (nonlinear_arith);
    lemma_shared_rows(h, z, 0, size, fuel, min_free, Seq::empty(), Seq::empty(), ss, b);
}

impl Heap {
    /// The quarters are what the fields of `t` lead to, and so is the node
    /// what `t` leads to.
    pub open spec fn knows_by(self, k: KnownQuarters, t: Term) -> bool {
        &&& self.live(k.parent) && self.live2(k.tl, k.tr) && self.live2(k.bl, k.br)
        &&& t.reduces(self.term(k.parent))
        &&& t.field(1).reduces(self.term(k.tl))
        &&& t.field(2).reduces(self.term(k.tr))
        &&& t.field(3).reduces(self.term(k.bl))
        &&& t.field(4).reduces(self.term(k.br))
    }

    /// What is known of a node is what its fields lead to.
    pub open spec fn is_known(self, k: KnownQuarters) -> bool {
        exists|t: Term| #[trigger] self.knows_by(k, t)
    }

    /// What is known is true.
    #[verifier::opaque]
    pub open spec fn knows_all(self, known: Seq<KnownQuarters>) -> bool {
        forall|i: int| 0 <= i < known.len() ==> self.is_known(#[trigger] known[i])
    }
}

pub(crate) proof fn lemma_knows_still(h: Heap, h1: Heap, known: Seq<KnownQuarters>)
    requires
        h.leads_to(h1),
        h.knows_all(known),
    ensures
        h1.knows_all(known),
{
    reveal(Heap::knows_all);
    assert forall|i: int| 0 <= i < known.len() implies h1.is_known(#[trigger] known[i]) by {
        let k = known[i];
        assert(h.is_known(known[i]));
        let t = choose|t: Term| #[trigger] h.knows_by(k, t);
        crate::laws::lemma_still(h, h1, k.parent, t);
        crate::laws::lemma_still(h, h1, k.tl, t.field(1));
        crate::laws::lemma_still(h, h1, k.tr, t.field(2));
        crate::laws::lemma_still(h, h1, k.bl, t.field(3));
        crate::laws::lemma_still(h, h1, k.br, t.field(4));
        assert(h1.knows_by(k, t));
    }
}

proof fn lemma_knows_push(h: Heap, known: Seq<KnownQuarters>, k: KnownQuarters, t: Term)
    requires
        h.knows_all(known),
        h.knows_by(k, t),
    ensures
        h.knows_all(known.push(k)),
{
    reveal(Heap::knows_all);
    assert(h.is_known(k));
    let all = known.push(k);
    assert forall|i: int| 0 <= i < all.len() implies h.is_known(#[trigger] all[i]) by {
        if i < known.len() {
            assert(all[i] == known[i]);
            assert(h.is_known(known[i]));
        }
    }
}

pub(crate) proof fn lemma_knows_none(h: Heap)
    ensures
        h.knows_all(Seq::empty()),
{
    reveal(Heap::knows_all);
}

/// What is known of a node are the quarters of every scene that it stands for.
proof fn lemma_knows_shows(h: Heap, k: KnownQuarters, t: Term, s: Scene)
    requires
        h.knows_by(k, t),
        h.shows(k.parent, s),
        s is Split,
    ensures
        h.shows(k.tl, s.quarter(0)),
        h.shows(k.tr, s.quarter(1)),
        h.shows(k.bl, s.quarter(2)),
        h.shows(k.br, s.quarter(3)),
{
    lemma_depicts(t, h.term(k.parent), s);
    lemma_depicts(t.field(1), h.term(k.tl), s.quarter(0));
    lemma_depicts(t.field(2), h.term(k.tr), s.quarter(1));
    lemma_depicts(t.field(3), h.term(k.bl), s.quarter(2));
    lemma_depicts(t.field(4), h.term(k.br), s.quarter(3));
}

/// The quarters that are given for a node stand for the quarters of its scene,
/// whether they were known or not, and however the node computes them. They
/// are given where fuel and room allow.
pub proof fn lemma_get_quarters(h: Heap, z: ZoomView, parent: u32, fuel: nat, s: Scene, b: nat)
    requires
        h.wf(),
        z.wf(h),
        h.are_sels(z.sels),
        h.knows_all(z.quarters),
        h.shows(parent, s),
        s is Split,
    ensures
        h.get_quarters(z, parent, fuel) matches Ok((h1, (k, z1))) ==> {
            &&& h.leads_to(h1)
            &&& z1.wf(h1)
            &&& z1 == (ZoomView { quarters: z1.quarters, ..z })
            &&& h1.knows_all(z1.quarters)
            &&& h1.shows(k.tl, s.quarter(0))
            &&& h1.shows(k.tr, s.quarter(1))
            &&& h1.shows(k.bl, s.quarter(2))
            &&& h1.shows(k.br, s.quarter(3))
        },
        h.term(parent).has_fields(b) && fuel > b && h.room() >= 4 + 12 * b ==> (h.get_quarters(
            z,
            parent,
            fuel,
        ) matches Ok((h1, _)) && h1.room() + 4 + 12 * b >= h.room()),
{
    reveal(Heap::get_quarters);
    let p = h.follow(parent);
    crate::graph::lemma_follow(h.graph, parent, h.graph.ranking());
    assert(h.live(p));
    assert(h.shows(p, s));
    crate::table::lemma_first(z.quarters, p);
    crate::heap::lemma_leads_refl(h);
    match crate::table::first_with(z.quarters, p) {
        Some(k) => {
            reveal(Heap::knows_all);
            let i = choose|i: int| 0 <= i < z.quarters.len() && z.quarters[i] == k;
            assert(h.is_known(z.quarters[i]));
            let t = choose|t: Term| #[trigger] h.knows_by(k, t);
            lemma_knows_shows(h, k, t, s);
        },
        None => {
            lemma_eval_quarters(h, z.sels, p, fuel, b);
            if let Ok((h1, k)) = h.eval_quarters(z.sels, p, fuel) {
                lemma_show_still(h, h1, p, s);
                lemma_knows_shows(h1, k, h.term(p), s);
                lemma_knows_still(h, h1, z.quarters);
                lemma_knows_push(h1, z.quarters, k, h.term(p));
                crate::zoom::lemma_zoom_leads(z, h, h1);
                crate::zoom::lemma_add_quarters(z, h1, k);
            }
        },
    }
}

/// A place after a collection, if one is due.
pub(crate) proof fn lemma_maybe_gc(h: Heap, z: ZoomView, ss: Seq<Scene>, b: nat)
    requires
        h.wf(),
        z.wf(h),
        h.shows_all(z, ss),
        h.knows_all(z.quarters),
    ensures
        h.maybe_gc(z).0.wf(),
        h.maybe_gc(z).1.wf(h.maybe_gc(z).0),
        h.maybe_gc(z).0.shows_all(h.maybe_gc(z).1, ss),
        h.maybe_gc(z).0.knows_all(h.maybe_gc(z).1.quarters),
        h.maybe_gc(z).0.room() >= h.room(),
        h.all_have_fields(z, b) ==> h.maybe_gc(z).0.all_have_fields(h.maybe_gc(z).1, b),
{
    if h.is_low(z) {
        crate::zoom::lemma_needed(z, h);
        assert(crate::zoom::color_nodes(z.forget().colors) =~= Seq::empty());
        crate::zoom::lemma_needed_live(z.forget(), h);
        lemma_nodes_gc(h, z.forget());
        lemma_knows_none(h.maybe_gc(z).0);
    }
}

pub(crate) proof fn lemma_all_sels(h: Heap, pos: int, sels: Seq<u32>)
    requires
        h.wf(),
        0 <= pos <= 5,
        sels.len() == pos,
        forall|p: int|
            0 <= p < pos ==> h.live(#[trigger] sels[p]) && h.term(sels[p]) == Term::sel(p),
    ensures
        h.room() >= 7 * (5 - pos) ==> h.all_sels(pos, sels) is Ok,
        h.all_sels(pos, sels) matches Ok((h1, r)) ==> h.leads_to(h1) && h1.are_sels(r) && h1.room()
            + 7 * (5 - pos) >= h.room(),
    decreases 5 - pos,
{
    if pos >= 5 {
        crate::heap::lemma_leads_refl(h);
        assert forall|p: int| 0 <= p < 5 implies h.live(#[trigger] sels[p]) && Term::sel(
            p,
        ).reduces(h.term(sels[p])) by {
            crate::term::lemma_reduces_refl(h.term(sels[p]));
        }
    } else {
        crate::intern::lemma_intern_diamond_sel(h, pos);
        if let Ok((h1, s)) = h.intern_diamond_sel(pos) {
            let sels1 = sels.push(s);
            assert forall|p: int| 0 <= p < pos + 1 implies h1.live(#[trigger] sels1[p]) && h1.term(
                sels1[p],
            ) == Term::sel(p) by {
                if p < pos {
                    assert(sels1[p] == sels[p]);
                    assert(h.live(sels[p]));
                }
            }
            lemma_all_sels(h1, pos + 1, sels1);
        }
    }
}

/// The place at the root of a tree stands for the quarters of its scene,
/// however the tree computes them. It is reached where fuel and room allow.
pub proof fn lemma_zoom_start(h: Heap, data: u32, keep: Seq<u32>, limit: nat, s: Scene, b: nat)
    requires
        h.wf(),
        h.shows(data, s),
        s is Split,
        h.all_live(keep),
    ensures
        h.zoom_start(data, keep, limit) matches Ok((h1, z)) ==> h1.wf() && h1.shows_all(
            z,
            seq![s.quarter(0), s.quarter(1), s.quarter(2), s.quarter(3)],
        ) && h1.knows_all(z.quarters),
        h.term(data).has_fields(b) && b < 120_000_000 && h.room() >= 51 + 48 * b
            ==> h.zoom_start(data, keep, limit) is Ok,
{
    let fuel = crate::zoom::CHILD_FUEL as nat;
    let go = h.term(data).has_fields(b) && b < fuel && h.room() >= 51 + 48 * b;
    lemma_all_sels(h, 0, Seq::empty());
    if let Ok((h0, sels)) = h.all_sels(0, Seq::empty()) {
        let z = ZoomView {
            sels,
            tl: data,
            tr: data,
            bl: data,
            br: data,
            quarters: Seq::empty(),
            colors: Seq::empty(),
            keep,
            limit,
        };
        lemma_show_still(h, h0, data, s);
        assert forall|k: int| 0 <= k < keep.len() implies h0.live(#[trigger] keep[k]) by {
            assert(h.live(keep[k]));
        }
        assert forall|k: int| 0 <= k < 5 implies h0.live(#[trigger] sels[k]) by {}
        assert(crate::zoom::color_nodes(z.colors) =~= Seq::empty());
        crate::zoom::lemma_needed_live(z, h0);
        lemma_knows_none(h0);
        if go {
            lemma_fields_still(h, h0, data, b);
        }
        lemma_get_quarters(h0, z, data, fuel, s, b);
        if let Ok((h1, (k1, z1))) = h0.get_quarters(z, data, fuel) {
            lemma_sels_still(h0, h1, sels);
            lemma_show_still(h0, h1, data, s);
            if go {
                lemma_fields_still(h0, h1, data, b);
            }
            lemma_get_quarters(h1, z1, data, fuel, s, b);
            if let Ok((h2, (k2, z2))) = h1.get_quarters(z1, data, fuel) {
                lemma_sels_still(h1, h2, sels);
                lemma_show_still(h1, h2, data, s);
                if go {
                    lemma_fields_still(h1, h2, data, b);
                }
                lemma_get_quarters(h2, z2, data, fuel, s, b);
                if let Ok((h3, (k3, z3))) = h2.get_quarters(z2, data, fuel) {
                    lemma_sels_still(h2, h3, sels);
                    lemma_show_still(h2, h3, data, s);
                    if go {
                        lemma_fields_still(h2, h3, data, b);
                    }
                    lemma_get_quarters(h3, z3, data, fuel, s, b);
                    if let Ok((h4, (k4, z4))) = h3.get_quarters(z3, data, fuel) {
                        lemma_sels_still(h3, h4, sels);
                        lemma_show_still(h1, h4, k1.tl, s.quarter(0));
                        lemma_show_still(h2, h4, k2.tr, s.quarter(1));
                        lemma_show_still(h3, h4, k3.bl, s.quarter(2));
                    }
                }
            }
        }
    }
}

/// The scenes that lie at the center.
pub open spec fn center(ss: Seq<Scene>) -> Seq<Scene> {
    seq![ss[0].quarter(3), ss[1].quarter(2), ss[2].quarter(1), ss[3].quarter(0)]
}

/// A step to the center leads to the quarters of the scenes that lie there,
/// whatever is known or collected on the way, and however the quarters are
/// computed. It succeeds where fuel and room allow.
#[verifier::spinoff_prover]
#[verifier::rlimit(40)]
pub proof fn lemma_zoom_in(h: Heap, z: ZoomView, ss: Seq<Scene>, b: nat)
    requires
        h.wf(),
        z.wf(h),
        h.shows_all(z, ss),
        h.knows_all(z.quarters),
        forall|q: int| 0 <= q < 4 ==> (#[trigger] ss[q]) is Split,
    ensures
        h.zoom_in(z) matches Ok((h1, (z1, _))) ==> h1.wf() && h1.shows_all(z1, center(ss))
            && h1.knows_all(z1.quarters),
        h.all_have_fields(z, b) && b < 120_000_000 && h.room() >= 16 + 48 * b
            ==> (h.zoom_in(z) matches Ok((h1, _)) && h1.room() + 16 + 48 * b >= h.room()),
{
    let fuel = crate::zoom::CHILD_FUEL as nat;
    let go = h.all_have_fields(z, b) && b < fuel && h.room() >= 16 + 48 * b;
    assert(ss[0] is Split && ss[1] is Split && ss[2] is Split && ss[3] is Split);
    lemma_maybe_gc(h, z, ss, b);
    let (h1, z1) = h.maybe_gc(z);
    lemma_get_quarters(h1, z1, z1.tl, fuel, ss[0], b);
    if let Ok((h2, (k1, z2))) = h1.get_quarters(z1, z1.tl, fuel) {
        lemma_shows_still(h1, h2, z2, ss);
        if go {
            lemma_all_fields_still(h1, h2, z1, z2, ss, b);
        }
        let tl = k1.br;
        crate::zoom::lemma_also(z2, h2, tl);
        let z2k = z2.also(tl);
        lemma_maybe_gc(h2, z2k, ss, b);
        let (h3, z3) = h2.maybe_gc(z2k);
        assert(h3.shows(tl, ss[0].quarter(3))) by {
            if h2.is_low(z2k) {
                let zf = z2k.forget();
                crate::zoom::lemma_needed(z2k, h2);
                assert(crate::zoom::color_nodes(zf.colors) =~= Seq::empty());
                crate::zoom::lemma_needed_live(zf, h2);
                crate::zoom::lemma_gc_zoom(zf, h2);
                let n = zf.needed();
                let last = n.len() - 1;
                assert(n[last] == tl);
                assert(h3.term(n[last]) == h2.term(n[last]));
                assert(h3.live(n[last]));
            }
        }
        lemma_get_quarters(h3, z3, z3.tr, fuel, ss[1], b);
        if let Ok((h4, (k2, z4))) = h3.get_quarters(z3, z3.tr, fuel) {
            lemma_shows_still(h3, h4, z4, ss);
            if go {
                lemma_all_fields_still(h3, h4, z3, z4, ss, b);
            }
            lemma_get_quarters(h4, z4, z4.bl, fuel, ss[2], b);
            if let Ok((h5, (k3, z5))) = h4.get_quarters(z4, z4.bl, fuel) {
                lemma_shows_still(h4, h5, z5, ss);
                if go {
                    lemma_all_fields_still(h4, h5, z4, z5, ss, b);
                }
                lemma_get_quarters(h5, z5, z5.br, fuel, ss[3], b);
                if let Ok((h6, (k4, z6))) = h5.get_quarters(z5, z5.br, fuel) {
                    lemma_sels_still(h5, h6, z6.sels);
                    lemma_show_still(h3, h6, tl, ss[0].quarter(3));
                    lemma_show_still(h4, h6, k2.bl, ss[1].quarter(2));
                    lemma_show_still(h5, h6, k3.tr, ss[2].quarter(1));
                }
            }
        }
    }
}

proof fn lemma_all_fields_still(
    h: Heap,
    h1: Heap,
    z: ZoomView,
    z1: ZoomView,
    ss: Seq<Scene>,
    b: nat,
)
    requires
        h.leads_to(h1),
        h.shows_all(z, ss),
        h.all_have_fields(z, b),
        z1 == (ZoomView { quarters: z1.quarters, ..z }),
    ensures
        h1.all_have_fields(z1, b),
{
    lemma_fields_still(h, h1, z.tl, b);
    lemma_fields_still(h, h1, z.tr, b);
    lemma_fields_still(h, h1, z.bl, b);
    lemma_fields_still(h, h1, z.br, b);
}

} // verus!
