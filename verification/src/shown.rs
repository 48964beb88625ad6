//! What showing a value as text promises.

use vstd::prelude::*;
use crate::heap::Heap;
use crate::node::{APP, I, K, K1, S, S1, S2};
use crate::term::Term;

verus! {

broadcast use crate::heap::group_leads;

/// A value as it is shown: booleans, numbers above zero, and pairs.
pub enum Shape {
    Boolean(bool),
    Number(u64),
    Pair(Box<Shape>, Box<Shape>),
}

impl Shape {
    /// The lines of the value: one for a boolean and for a number; for a pair
    /// those of its parts, one level further in, between lines for the pair.
    /// Below `levels` levels nothing is shown.
    pub open spec fn lines(self, pad: Seq<char>, levels: nat) -> Seq<Seq<char>>
        decreases self,
    {
        let rest = (levels - 1) as nat;
        if levels == 0 {
            Seq::empty()
        } else {
            match self {
                Shape::Boolean(true) => seq![pad + "TRUE"@],
                Shape::Boolean(false) => seq![pad + "FALSE (nil)"@],
                Shape::Number(n) => seq![pad + ("NUMBER("@ + crate::text::decimal(n as nat) + ")"@)],
                Shape::Pair(x, y) => seq![pad + "PAIR("@] + x.lines(pad + "  "@, rest) + seq![pad
                    + ","@] + y.lines(pad + "  "@, rest) + seq![pad + ")"@],
            }
        }
    }

    /// Enough fuel for showing the value, if its parts take `b` reductions each:
    /// a part gets a quarter.
    pub open spec fn fuel(self, b: nat) -> nat
        decreases self,
    {
        match self {
            Shape::Pair(x, y) => 4 * (x.fuel(b) + y.fuel(b)),
            _ => 10 * crate::readings::value_fuel(b),
        }
    }

    /// Enough room for showing the value.
    pub open spec fn room(self, b: nat) -> nat
        decreases self,
    {
        match self {
            Shape::Pair(x, y) => 1300 + 900 * b + x.room(b) + y.room(b),
            _ => 1300 + 900 * b,
        }
    }
}

impl Term {
    /// The expression is the value, and each of its parts takes `b` reductions
    /// at most. A pair is neither boolean nor number above zero.
    pub open spec fn has_shape(self, s: Shape, b: nat) -> bool
        decreases s,
    {
        match s {
            Shape::Boolean(v) => self.says(v, b),
            Shape::Number(n) => n > 0 && self.is_no_bool(b) && self.denotes(n as nat, b),
            Shape::Pair(x, y) => {
                &&& self.is_no_bool(b)
                &&& self.is_no_number(b) || self.denotes(0, b)
                &&& exists|p: Term, q: Term| #[trigger]
                    self.has_parts(p, q, b) && p.has_shape(*x, b) && q.has_shape(*y, b)
            },
        }
    }
}

/// Any value takes that much fuel at least.
proof fn lemma_least_fuel(s: Shape, b: nat)
    ensures
        s.fuel(b) >= 10 * crate::readings::value_fuel(b),
    decreases s,
{
    if let Shape::Pair(x, y) = s {
        lemma_least_fuel(*x, b);
        lemma_least_fuel(*y, b);
    }
}

/// Two blanks for each level, and nothing else.
pub proof fn lemma_blanks(depth: nat)
    ensures
        crate::text::blanks(depth).len() == 2 * depth,
        forall|k: int| 0 <= k < 2 * depth ==> #[trigger] crate::text::blanks(depth)[k] == ' ',
    decreases depth,
{
    reveal_strlit("  ");
    if depth > 0 {
        lemma_blanks((depth - 1) as nat);
    }
}

/// A value is shown line by line as what it is, however the expression computes
/// it: given fuel and room.
pub proof fn lemma_deep_decode(
    h: Heap,
    node: u32,
    fuel: nat,
    depth: nat,
    max: nat,
    t: Term,
    s: Shape,
    b: nat,
)
    requires
        h.wf(),
        h.live(node),
        t.reduces(h.term(node)),
        t.has_shape(s, b),
        depth <= max + 1,
        fuel >= s.fuel(b),
        h.room() >= s.room(b),
    ensures
        h.deep_decode(node, fuel, depth, max) matches Ok((h1, lines)) && lines == s.lines(
            crate::text::blanks(depth),
            (max + 1 - depth) as nat,
        ) && h.leads_to(h1) && h1.room() + s.room(b) >= h.room(),
    decreases s,
{
    let pad = crate::text::blanks(depth);
    lemma_least_fuel(s, b);
    crate::meaning::lemma_number_fuel(fuel / 10, b);
    crate::heap::lemma_leads_refl(h);
    match s {
        Shape::Boolean(v) => {
            crate::meaning::lemma_read_bool(h, node, fuel / 10, t, v, b);
        },
        Shape::Number(n) => {
            crate::meaning::lemma_read_no_bool(h, node, fuel / 10, t, b);
            let (h1, _) = h.decode_bool(node, fuel / 10)->Ok_0;
            crate::laws::lemma_still(h, h1, node, t);
            crate::meaning::lemma_read_number(h1, node, fuel / 10, t, n, b);
        },
        Shape::Pair(x, y) => {
            let (p, q) = choose|p: Term, q: Term| #[trigger]
                t.has_parts(p, q, b) && p.has_shape(*x, b) && q.has_shape(*y, b);
            crate::meaning::lemma_read_no_bool(h, node, fuel / 10, t, b);
            let (h1, _) = h.decode_bool(node, fuel / 10)->Ok_0;
            crate::laws::lemma_still(h, h1, node, t);
            if t.denotes(0, b) {
                crate::meaning::lemma_read_number(h1, node, fuel / 10, t, 0, b);
            } else {
                crate::readings::lemma_read_no_number(h1, node, fuel / 10, t, b);
            }
            let (h2, _) = h1.decode_scott_num(node, fuel / 10)->Ok_0;
            crate::laws::lemma_still(h1, h2, node, t);
            crate::meaning::lemma_read_fst(h2, node, fuel / 4, t, p, q, b);
            let (h3, (fst, _)) = h2.pair_fst(node, fuel / 4)->Ok_0;
            crate::laws::lemma_still(h2, h3, node, t);
            crate::meaning::lemma_read_snd(h3, node, fuel / 4, t, p, q, b);
            let (h4, (snd, _)) = h3.pair_snd(node, fuel / 4)->Ok_0;
            crate::laws::lemma_still(h3, h4, fst, p);
            if depth <= max {
                lemma_deep_decode(h4, fst, fuel / 4, depth + 1, max, p, *x, b);
                let (h5, _) = h4.deep_decode(fst, fuel / 4, depth + 1, max)->Ok_0;
                crate::laws::lemma_still(h4, h5, snd, q);
                lemma_deep_decode(h5, snd, fuel / 4, depth + 1, max, q, *y, b);
                assert(crate::text::blanks(depth + 1) == pad + "  "@);
            }
        },
    }
}

/// The number that a text of digits is, read from left to right.
pub open spec fn read_decimal(s: Seq<char>) -> nat
    decreases s.len(),
{
    if s.len() == 0 {
        0
    } else {
        read_decimal(s.drop_last()) * 10 + (s.last() as nat - '0' as nat) as nat
    }
}

/// A number in decimal notation is made of digits, starts with a zero only if
/// it is zero, and is read as the number.
pub proof fn lemma_decimal(n: nat)
    ensures
        crate::text::decimal(n).len() > 0,
        forall|k: int|
            0 <= k < crate::text::decimal(n).len() ==> '0' <= #[trigger] crate::text::decimal(n)[k]
                <= '9',
        n > 0 ==> crate::text::decimal(n)[0] != '0',
        read_decimal(crate::text::decimal(n)) == n,
    decreases n,
{
    let s = crate::text::decimal(n);
    let d = n % 10;
    assert(s.last() == crate::text::digit(d));
    assert(crate::text::digit(d) as nat == 48 + d);
    if n < 10 {
        assert(s.drop_last() =~= Seq::empty());
        assert(read_decimal(s.drop_last()) == 0);
    } else {
        lemma_decimal(n / 10);
        assert(s.drop_last() =~= crate::text::decimal(n / 10));
    }
}

/// Two numbers with the same notation are the same.
pub proof fn lemma_decimal_one(m: nat, n: nat)
    requires
        crate::text::decimal(m) == crate::text::decimal(n),
    ensures
        m == n,
{
    lemma_decimal(m);
    lemma_decimal(n);
}

/// The text is another one in brackets.
pub open spec fn bracket(s: Seq<char>, open: Seq<char>, c: Seq<char>) -> bool {
    s == open + c + ")"@
}

/// The text is two others in brackets, with a blank between them.
pub open spec fn brackets(s: Seq<char>, open: Seq<char>, a: Seq<char>, c: Seq<char>) -> bool {
    s == open + a + " "@ + c + ")"@
}

impl Term {
    /// The text is a notation of the expression down to `levels` levels: letters
    /// for the combinators, and brackets around a function and its arguments.
    /// `S` may stand with both of its arguments in the same brackets. What lies
    /// deeper is three dots.
    pub open spec fn written(self, s: Seq<char>, levels: nat) -> bool
        decreases levels,
    {
        if levels == 0 {
            s == "..."@
        } else {
            let rest = (levels - 1) as nat;
            match self {
                Term::Atom(tag) => if tag == S {
                    s == "S"@
                } else if tag == K {
                    s == "K"@
                } else if tag == I {
                    s == "I"@
                } else {
                    s == "?"@ + crate::text::decimal(tag as nat)
                },
                Term::App(f, x) => {
                    ||| exists|a: Seq<char>, c: Seq<char>| #[trigger]
                        brackets(s, "("@, a, c) && f.written(a, rest) && x.written(c, rest)
                    ||| exists|c: Seq<char>| #[trigger]
                        bracket(s, "(S "@, c) && *f == Term::Atom(S) && x.written(c, rest)
                    ||| exists|c: Seq<char>| #[trigger]
                        bracket(s, "(K "@, c) && *f == Term::Atom(K) && x.written(c, rest)
                    ||| exists|a: Seq<char>, c: Seq<char>| #[trigger]
                        brackets(s, "(S "@, a, c) && f.is_app() && f.fun() == Term::Atom(S)
                            && f.arg().written(a, rest) && x.written(c, rest)
                },
            }
        }
    }
}

impl Term {
    /// The text is a notation of what the expression reduces to, down to eight
    /// levels below the first.
    pub open spec fn tells(self, s: Seq<char>) -> bool {
        exists|u: Term| self.reduces(u) && #[trigger] u.written(s, 9)
    }
}

/// The text of a node tells what it stands for.
pub proof fn lemma_tells(h: Heap, node: u32, t: Term)
    requires
        h.wf(),
        h.live(node),
        t.reduces(h.term(node)),
    ensures
        t.tells(h.describe(node, 0)),
{
    lemma_describe(h, node, 0);
}

/// The text of a node is a notation of its expression, down to eight levels below
/// the first.
pub proof fn lemma_describe(h: Heap, idx: u32, depth: nat)
    requires
        h.wf(),
        h.live(idx),
        depth <= 9,
    ensures
        h.term(idx).written(h.describe(idx, depth), (9 - depth) as nat),
    decreases 9 - depth,
{
    if depth < 9 {
        crate::graph::lemma_follow(h.graph, idx, h.graph.ranking());
        let i = h.follow(idx);
        let n = h.at(i);
        let levels = (9 - depth) as nat;
        let rest = (levels - 1) as nat;
        assert(h.graph.live(i));
        let t = h.term(idx);
        let s = h.describe(idx, depth);
        if n.tag == APP || n.tag == S2 {
            assert(h.live(n.a) && h.live(n.b));
            lemma_describe(h, n.a, depth + 1);
            lemma_describe(h, n.b, depth + 1);
            let (a, c) = (h.describe(n.a, depth + 1), h.describe(n.b, depth + 1));
            assert(h.term(n.a).written(a, rest) && h.term(n.b).written(c, rest));
            assert(t.arg() == h.term(n.b));
            if n.tag == S2 {
                assert(t.fun().arg() == h.term(n.a));
                assert(t.fun().arg().written(a, rest) && t.arg().written(c, rest));
                assert(brackets(s, "(S "@, a, c));
            } else {
                assert(t.fun().written(a, rest) && t.arg().written(c, rest));
                assert(brackets(s, "("@, a, c));
            }
            assert(t.written(s, levels));
        } else if n.tag == S1 || n.tag == K1 {
            assert(h.live(n.a));
            lemma_describe(h, n.a, depth + 1);
            let c = h.describe(n.a, depth + 1);
            assert(t.arg().written(c, rest));
            assert(bracket(s, "(S "@, c) || bracket(s, "(K "@, c));
            assert(t.written(s, levels));
        } else {
            assert(t == Term::Atom(n.tag));
            assert(t.written(s, levels));
        }
    }
}

/// An integer in decimal notation is the notation of its magnitude, after a minus
/// sign if it is negative.
pub proof fn lemma_signed_decimal(n: int)
    ensures
        n >= 0 ==> read_decimal(crate::text::signed_decimal(n)) == n,
        n < 0 ==> crate::text::signed_decimal(n)[0] == '-' && read_decimal(
            crate::text::signed_decimal(n).skip(1),
        ) == -n,
{
    reveal_strlit("-");
    if n >= 0 {
        lemma_decimal(n as nat);
    } else {
        lemma_decimal((-n) as nat);
        assert(crate::text::signed_decimal(n).skip(1) =~= crate::text::decimal((-n) as nat));
    }
}

/// The label of an element is its number; or else its integer, after a letter; or
/// else a question mark.
pub proof fn lemma_label(e: crate::io::ElementView)
    ensures
        e.number matches Some(n) ==> read_decimal(crate::io::label_of(e)) == n,
        e.number is None ==> (e.integer matches Some(i) ==> crate::io::label_of(e)[0] == 'i' && (i
            >= 0 ==> read_decimal(crate::io::label_of(e).skip(1)) == i) && (i < 0
            ==> crate::io::label_of(e)[1] == '-' && read_decimal(crate::io::label_of(e).skip(2))
            == -i)),
        e.number is None && e.integer is None ==> crate::io::label_of(e) == "?"@,
{
    reveal_strlit("i");
    if let Some(n) = e.number {
        lemma_decimal(n as nat);
    } else if let Some(i) = e.integer {
        lemma_signed_decimal(i as int);
        let d = crate::text::signed_decimal(i as int);
        let l = crate::io::label_of(e);
        assert(l.skip(1) =~= d);
        if i < 0 {
            lemma_decimal((-i) as nat);
            assert(d.len() > 0) by {
                reveal_strlit("-");
            }
            assert(l.skip(2) =~= d.skip(1));
        }
    }
}

/// The number that bytes of digits are, read from left to right.
pub open spec fn read_digits(s: Seq<u8>) -> nat
    decreases s.len(),
{
    if s.len() == 0 {
        0
    } else {
        read_digits(s.drop_last()) * 10 + (s.last() - 48) as nat
    }
}

/// A number as bytes is made of digits, and is read as the number.
pub proof fn lemma_decimal_bytes(n: nat)
    ensures
        crate::pgm::decimal_bytes(n).len() > 0,
        forall|k: int|
            0 <= k < crate::pgm::decimal_bytes(n).len() ==> 48 <= #[trigger] crate::pgm::decimal_bytes(
                n,
            )[k] <= 57,
        read_digits(crate::pgm::decimal_bytes(n)) == n,
    decreases n,
{
    let s = crate::pgm::decimal_bytes(n);
    if n < 10 {
        assert(s.drop_last() =~= Seq::empty());
        assert(read_digits(s.drop_last()) == 0);
    } else {
        lemma_decimal_bytes(n / 10);
        assert(s.drop_last() =~= crate::pgm::decimal_bytes(n / 10));
    }
}

/// The file of an image: a line that names the format, one with the width and the
/// height, one with the largest gray level, and then the pixels, one byte each.
pub proof fn lemma_pgm(width: nat, height: nat, pixels: Seq<u8>) -> (r: (int, int))
    ensures
        ({
            let f = crate::pgm::pgm_of(width, height, pixels);
            let (i, j) = r;
            &&& 3 < i < j < f.len() - 4
            &&& f.take(3) == seq![80u8, 53u8, 10u8]
            &&& read_digits(f.subrange(3, i)) == width
            &&& f[i] == 32
            &&& read_digits(f.subrange(i + 1, j)) == height
            &&& f.subrange(j, j + 5) == seq![10u8, 50u8, 53u8, 53u8, 10u8]
            &&& f.skip(j + 5) == pixels
        }),
{
    let f = crate::pgm::pgm_of(width, height, pixels);
    let (w, h) = (crate::pgm::decimal_bytes(width), crate::pgm::decimal_bytes(height));
    lemma_decimal_bytes(width);
    lemma_decimal_bytes(height);
    let i = 3 + w.len() as int;
    let j = i + 1 + h.len();
    assert(f.take(3) =~= seq![80u8, 53u8, 10u8]);
    assert(f.subrange(3, i) =~= w);
    assert(f.subrange(i + 1, j) =~= h);
    assert(f.subrange(j, j + 5) =~= seq![10u8, 50u8, 53u8, 53u8, 10u8]);
    assert(f.skip(j + 5) =~= pixels);
    (i, j)
}

} // verus!
