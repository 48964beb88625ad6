//! Expressions and values as text.

use vstd::prelude::*;
use vstd::string::StringExecFns;
use crate::arena::Arena;
use crate::decode::decode_scott_num;
use crate::heap::{AllocError, Heap, Outcome};
use crate::node::{APP, I, K, K1, S, S1, S2};
use crate::select::{decode_bool, pair_fst, pair_snd};

verus! {

broadcast use crate::heap::group_leads;

/// The digit of a number below ten.
pub open spec fn digit(n: nat) -> char {
    (48 + n) as char
}

/// A number in decimal notation.
pub open spec fn decimal(n: nat) -> Seq<char>
    decreases n,
{
    if n < 10 {
        seq![digit(n)]
    } else {
        decimal(n / 10).push(digit(n % 10))
    }
}

fn digit_str(n: u64) -> (s: &'static str)
    requires
        n < 10,
    ensures
        s@ == seq![digit(n as nat)],
{
    proof {
        reveal_strlit("0");
        reveal_strlit("1");
        reveal_strlit("2");
        reveal_strlit("3");
        reveal_strlit("4");
        reveal_strlit("5");
        reveal_strlit("6");
        reveal_strlit("7");
        reveal_strlit("8");
        reveal_strlit("9");
    }
    let s = if n == 0 {
        "0"
    } else if n == 1 {
        "1"
    } else if n == 2 {
        "2"
    } else if n == 3 {
        "3"
    } else if n == 4 {
        "4"
    } else if n == 5 {
        "5"
    } else if n == 6 {
        "6"
    } else if n == 7 {
        "7"
    } else if n == 8 {
        "8"
    } else {
        "9"
    };
    assert(s@ =~= seq![digit(n as nat)]);
    s
}

/// A number in decimal notation.
pub fn to_decimal(n: u64) -> (s: String)
    ensures
        s@ == decimal(n as nat),
    decreases n,
{
    if n < 10 {
        digit_str(n).to_owned()
    } else {
        let mut s = to_decimal(n / 10);
        s.append(digit_str(n % 10));
        proof {
            let d = decimal((n / 10) as nat);
            assert(d + seq![digit((n % 10) as nat)] =~= d.push(digit((n % 10) as nat)));
        }
        s
    }
}

/// An integer in decimal notation.
pub open spec fn signed_decimal(n: int) -> Seq<char> {
    if n < 0 {
        "-"@ + decimal((-n) as nat)
    } else {
        decimal(n as nat)
    }
}

/// An integer in decimal notation.
pub fn to_signed_decimal(n: i64) -> (s: String)
    ensures
        s@ == signed_decimal(n as int),
{
    if n < 0 {
        let magnitude: u64 = (-(n + 1)) as u64 + 1;
        let d = to_decimal(magnitude);
        let mut s = "-".to_owned();
        s.append(d.as_str());
        s
    } else {
        to_decimal(n as u64)
    }
}

impl Heap {
    /// The expression of a node, down to the given depth.
    pub open spec fn describe(self, idx: u32, depth: nat) -> Seq<char>
        decreases 9 - depth,
    {
        if depth > 8 {
            "..."@
        } else {
            let n = self.at(self.follow(idx));
            if n.tag == S {
                "S"@
            } else if n.tag == K {
                "K"@
            } else if n.tag == I {
                "I"@
            } else if n.tag == APP {
                "("@ + self.describe(n.a, depth + 1) + " "@ + self.describe(n.b, depth + 1) + ")"@
            } else if n.tag == S1 {
                "(S "@ + self.describe(n.a, depth + 1) + ")"@
            } else if n.tag == S2 {
                "(S "@ + self.describe(n.a, depth + 1) + " "@ + self.describe(n.b, depth + 1) + ")"@
            } else if n.tag == K1 {
                "(K "@ + self.describe(n.a, depth + 1) + ")"@
            } else {
                "?"@ + decimal(n.tag as nat)
            }
        }
    }
}

/// The expression of a node as text; what lies deeper than eight levels is
/// left out.
pub fn describe(arena: &Arena, idx: u32, depth: usize) -> (s: String)
    requires
        arena@.wf(),
        arena@.live(idx),
    ensures
        s@ == arena@.describe(idx, depth as nat),
    decreases (if depth > 8 { 0 } else { 9 - depth }),
{
    if depth > 8 {
        return "...".to_owned();
    }
    let i: u32 = arena.follow(idx);
    let n = arena.node(i);
    assert(arena@.graph.live(i));
    if n.tag == S {
        "S".to_owned()
    } else if n.tag == K {
        "K".to_owned()
    } else if n.tag == I {
        "I".to_owned()
    } else if n.tag == APP {
        let f = describe(arena, n.a, depth + 1);
        let a = describe(arena, n.b, depth + 1);
        let mut s = "(".to_owned();
        s.append(f.as_str());
        s.append(" ");
        s.append(a.as_str());
        s.append(")");
        s
    } else if n.tag == S1 {
        let f = describe(arena, n.a, depth + 1);
        let mut s = "(S ".to_owned();
        s.append(f.as_str());
        s.append(")");
        s
    } else if n.tag == S2 {
        let f = describe(arena, n.a, depth + 1);
        let g = describe(arena, n.b, depth + 1);
        let mut s = "(S ".to_owned();
        s.append(f.as_str());
        s.append(" ");
        s.append(g.as_str());
        s.append(")");
        s
    } else if n.tag == K1 {
        let x = describe(arena, n.a, depth + 1);
        let mut s = "(K ".to_owned();
        s.append(x.as_str());
        s.append(")");
        s
    } else {
        let t = to_decimal(n.tag as u64);
        let mut s = "?".to_owned();
        s.append(t.as_str());
        s
    }
}

/// Two blanks for each level.
pub open spec fn blanks(depth: nat) -> Seq<char>
    decreases depth,
{
    if depth == 0 {
        Seq::empty()
    } else {
        blanks((depth - 1) as nat) + "  "@
    }
}

fn indent(depth: usize) -> (s: String)
    ensures
        s@ == blanks(depth as nat),
{
    let mut s = String::new();
    let mut k: usize = 0;
    assert(s@ =~= blanks(0));
    while k < depth
        invariant
            k <= depth,
            s@ == blanks(k as nat),
        decreases depth - k,
    {
        s.append("  ");
        k += 1;
    }
    s
}

/// The texts of the lines.
pub open spec fn texts(lines: Seq<String>) -> Seq<Seq<char>> {
    Seq::new(lines.len(), |k: int| lines[k]@)
}

fn push_line(lines: &mut Vec<String>, depth: usize, text: &str)
    ensures
        texts(final(lines)@) == texts(old(lines)@).push(blanks(depth as nat) + text@),
{
    let mut s = indent(depth);
    s.append(text);
    lines.push(s);
    assert(texts(lines@) =~= texts(old(lines)@).push(blanks(depth as nat) + text@));
}

impl Heap {
    /// The lines that show a value as nested pairs, down to `max` levels.
    pub open spec fn deep_decode(self, node: u32, fuel: nat, depth: nat, max: nat) -> Outcome<
        Seq<Seq<char>>,
    >
        decreases max + 1 - depth,
    {
        let pad = blanks(depth);
        if depth > max || fuel == 0 {
            Ok((self, Seq::empty()))
        } else {
            match self.decode_bool(node, fuel / 10) {
                Err(e) => Err(e),
                Ok((h1, Some(true))) => Ok((h1, seq![pad + "TRUE"@])),
                Ok((h1, Some(false))) => Ok((h1, seq![pad + "FALSE (nil)"@])),
                Ok((h1, None)) => match h1.decode_scott_num(node, fuel / 10) {
                    Err(e) => Err(e),
                    Ok((h2, num)) => if num is Some && num->0 > 0 {
                        Ok((h2, seq![pad + ("NUMBER("@ + decimal(num->0 as nat) + ")"@)]))
                    } else {
                        match h2.pair_fst(node, fuel / 4) {
                            Err(e) => Err(e),
                            Ok((h3, (fst, _))) => match h3.pair_snd(node, fuel / 4) {
                                Err(e) => Err(e),
                                Ok((h4, (snd, _))) => match h4.deep_decode(
                                    fst,
                                    fuel / 4,
                                    depth + 1,
                                    max,
                                ) {
                                    Err(e) => Err(e),
                                    Ok((h5, a)) => match h5.deep_decode(
                                        snd,
                                        fuel / 4,
                                        depth + 1,
                                        max,
                                    ) {
                                        Err(e) => Err(e),
                                        Ok((h6, b)) => Ok(
                                            (
                                                h6,
                                                seq![pad + "PAIR("@] + a + seq![pad + ","@] + b
                                                    + seq![pad + ")"@],
                                            ),
                                        ),
                                    },
                                },
                            },
                        }
                    },
                },
            }
        }
    }
}

/// Shows a value as nested pairs, line by line, down to `max_depth` levels.
pub fn deep_decode(
    arena: &mut Arena,
    node: u32,
    fuel: u64,
    depth: usize,
    max_depth: usize,
    lines: &mut Vec<String>,
) -> (r: Result<(), AllocError>)
    requires
        old(arena)@.wf(),
        old(arena)@.live(node),
        max_depth < usize::MAX,
    ensures
        match r {
            Ok(_) => old(arena)@.deep_decode(node, fuel as nat, depth as nat, max_depth as nat)
                matches Ok((h, shown)) && h == final(arena)@ && texts(final(lines)@) == texts(
                old(lines)@,
            ) + shown,
            Err(e) => old(arena)@.deep_decode(node, fuel as nat, depth as nat, max_depth as nat)
                == Err::<(Heap, Seq<Seq<char>>), AllocError>(e),
        },
        old(arena)@.leads_to(final(arena)@),
    decreases max_depth + 1 - depth,
{
    let ghost t0 = texts(lines@);
    proof {
        crate::heap::lemma_leads_refl(arena@);
        assert(t0 + Seq::<Seq<char>>::empty() =~= t0);
    }
    if depth > max_depth || fuel == 0 {
        return Ok(());
    }
    let ghost pad = blanks(depth as nat);
    match decode_bool(arena, node, fuel / 10)? {
        Some(true) => {
            push_line(lines, depth, "TRUE");
            assert(t0 + seq![pad + "TRUE"@] =~= t0.push(pad + "TRUE"@));
            return Ok(());
        },
        Some(false) => {
            push_line(lines, depth, "FALSE (nil)");
            assert(t0 + seq![pad + "FALSE (nil)"@] =~= t0.push(pad + "FALSE (nil)"@));
            return Ok(());
        },
        None => {},
    }
    if let Some(n) = decode_scott_num(arena, node, fuel / 10)? {
        if n > 0 {
            let d = to_decimal(n);
            let mut s = "NUMBER(".to_owned();
            s.append(d.as_str());
            s.append(")");
            push_line(lines, depth, s.as_str());
            assert(t0 + seq![pad + s@] =~= t0.push(pad + s@));
            return Ok(());
        }
    }
    let mut f1: u64 = fuel / 4;
    let fst: u32 = pair_fst(arena, node, &mut f1)?;
    let mut f2: u64 = fuel / 4;
    let snd: u32 = pair_snd(arena, node, &mut f2)?;
    push_line(lines, depth, "PAIR(");
    let ghost t1 = texts(lines@);
    deep_decode(arena, fst, fuel / 4, depth + 1, max_depth, lines)?;
    let ghost t2 = texts(lines@);
    push_line(lines, depth, ",");
    let ghost t3 = texts(lines@);
    deep_decode(arena, snd, fuel / 4, depth + 1, max_depth, lines)?;
    let ghost t4 = texts(lines@);
    push_line(lines, depth, ")");
    proof {
        let a = t2.skip(t1.len() as int);
        let b = t4.skip(t3.len() as int);
        assert(t2 =~= t1 + a);
        assert(t4 =~= t3 + b);
        assert(texts(lines@) =~= t0 + (seq![pad + "PAIR("@] + a + seq![pad + ","@] + b + seq![pad
            + ")"@]));
    }
    Ok(())
}

} // verus!
