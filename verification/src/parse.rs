//! The compact notation: `k` is `S`, `X` is `K`, `D` is `I`, and `-` applies
//! the expression before the last one to the last one. Everything else is
//! skipped.

use vstd::prelude::*;
use crate::arena::Arena;
use crate::heap::{AllocError, Heap};
use crate::node::{APP, I, K, NIL, Node, S};
use crate::term::Term;

verus! {

broadcast use crate::heap::group_leads;

/// Why an input could not be read.
#[derive(Clone, Copy, PartialEq, Eq, Structural, Debug)]
pub enum ParseError {
    /// A node could not be allocated.
    Alloc(AllocError),
    /// An application without two expressions before it.
    Underflow,
    /// The input is not one expression, but this many.
    Leftover(usize),
}

/// The shared nodes for the combinators of an input.
pub struct Atoms {
    pub s: u32,
    pub k: u32,
    pub i: u32,
}

impl Atoms {
    /// The node that a character stands for.
    pub open spec fn of(self, c: u8) -> Option<u32> {
        if c == 0x6b {
            Some(self.s)
        } else if c == 0x58 {
            Some(self.k)
        } else if c == 0x44 {
            Some(self.i)
        } else {
            None
        }
    }
}

impl Heap {
    /// Allocates the nodes for the combinators.
    pub open spec fn atoms(self) -> Result<(Heap, Atoms), AllocError> {
        match self.grow(Node::leaf(S)) {
            Err(e) => Err(e),
            Ok((h1, s)) => match h1.grow(Node::leaf(K)) {
                Err(e) => Err(e),
                Ok((h2, k)) => match h2.grow(Node::leaf(I)) {
                    Err(e) => Err(e),
                    Ok((h3, i)) => Ok((h3, Atoms { s, k, i })),
                },
            },
        }
    }

    /// Reads an input that comes after the expressions on the stack.
    pub open spec fn read_from(self, atoms: Atoms, stack: Seq<u32>, input: Seq<u8>) -> Result<
        (Heap, Seq<u32>),
        ParseError,
    >
        decreases input.len(),
    {
        if input.len() == 0 {
            Ok((self, stack))
        } else if atoms.of(input[0]) is Some {
            self.read_from(atoms, stack.push(atoms.of(input[0])->0), input.skip(1))
        } else if input[0] == 0x2d {
            if stack.len() < 2 {
                Err(ParseError::Underflow)
            } else {
                let x = stack[stack.len() - 2];
                let y = stack[stack.len() - 1];
                match self.grow(Node { tag: APP, a: x, b: y }) {
                    Err(e) => Err(ParseError::Alloc(e)),
                    Ok((h, i)) => h.read_from(
                        atoms,
                        stack.take(stack.len() - 2).push(i),
                        input.skip(1),
                    ),
                }
            }
        } else {
            self.read_from(atoms, stack, input.skip(1))
        }
    }

    /// Reads an expression.
    pub open spec fn parse(self, input: Seq<u8>) -> Result<(Heap, u32), ParseError> {
        match self.atoms() {
            Err(e) => Err(ParseError::Alloc(e)),
            Ok((h, atoms)) => match h.read_from(atoms, Seq::empty(), input) {
                Err(e) => Err(e),
                Ok((h1, stack)) => if stack.len() == 1 {
                    Ok((h1, stack[0]))
                } else {
                    Err(ParseError::Leftover(stack.len() as usize))
                },
            },
        }
    }
}

impl Term {
    /// The expressions that the notation denotes after those on the stack.
    pub open spec fn postfix(stack: Seq<Term>, input: Seq<u8>) -> Option<Seq<Term>>
        decreases input.len(),
    {
        if input.len() == 0 {
            Some(stack)
        } else if input[0] == 0x6b {
            Term::postfix(stack.push(Term::Atom(S)), input.skip(1))
        } else if input[0] == 0x58 {
            Term::postfix(stack.push(Term::Atom(K)), input.skip(1))
        } else if input[0] == 0x44 {
            Term::postfix(stack.push(Term::Atom(I)), input.skip(1))
        } else if input[0] == 0x2d {
            if stack.len() < 2 {
                None
            } else {
                let t = Term::app(stack[stack.len() - 2], stack[stack.len() - 1]);
                Term::postfix(stack.take(stack.len() - 2).push(t), input.skip(1))
            }
        } else {
            Term::postfix(stack, input.skip(1))
        }
    }

    /// The notation of an expression.
    pub open spec fn compact(self) -> Seq<u8>
        decreases self,
    {
        match self {
            Term::Atom(tag) => if tag == S {
                seq![0x6bu8]
            } else if tag == K {
                seq![0x58u8]
            } else {
                seq![0x44u8]
            },
            Term::App(f, x) => f.compact() + x.compact() + seq![0x2du8],
        }
    }

    /// Only the three combinators occur.
    pub open spec fn is_ski(self) -> bool
        decreases self,
    {
        match self {
            Term::Atom(tag) => tag == S || tag == K || tag == I,
            Term::App(f, x) => f.is_ski() && x.is_ski(),
        }
    }
}

impl Heap {
    /// The nodes of the stack are live.
    pub open spec fn all_live(self, stack: Seq<u32>) -> bool {
        forall|k: int| 0 <= k < stack.len() ==> self.live(#[trigger] stack[k])
    }

    /// The expressions that the nodes of the stack stand for.
    pub open spec fn terms(self, stack: Seq<u32>) -> Seq<Term> {
        Seq::new(stack.len(), |k: int| self.term(stack[k]))
    }

    /// The nodes stand for the combinators.
    pub open spec fn are_atoms(self, atoms: Atoms) -> bool {
        &&& self.live(atoms.s) && self.term(atoms.s) == Term::Atom(S)
        &&& self.live(atoms.k) && self.term(atoms.k) == Term::Atom(K)
        &&& self.live(atoms.i) && self.term(atoms.i) == Term::Atom(I)
    }
}

pub proof fn lemma_atoms(h: Heap)
    requires
        h.wf(),
    ensures
        h.room() >= 3 ==> h.atoms() is Ok,
        h.atoms() matches Ok((h1, atoms)) ==> h.builds(h1, 3) && h1.are_atoms(atoms),
{
    crate::heap::lemma_alloc(h, Node::leaf(S));
    if let Ok((h1, s)) = h.grow(Node::leaf(S)) {
        crate::heap::lemma_alloc(h1, Node::leaf(K));
        if let Ok((h2, k)) = h1.grow(Node::leaf(K)) {
            crate::heap::lemma_alloc(h2, Node::leaf(I));
            if let Ok((h3, i)) = h2.grow(Node::leaf(I)) {
                crate::heap::lemma_builds_trans(h, h1, h2, 1, 1);
                crate::heap::lemma_builds_trans(h, h2, h3, 2, 1);
                assert(h1.live(s) && h2.live(s) && h2.live(k));
            }
        }
    }
}

/// Reading builds what the notation denotes, and fails for want of operands
/// exactly where it denotes nothing.
pub proof fn lemma_read_from(h: Heap, atoms: Atoms, stack: Seq<u32>, input: Seq<u8>)
    requires
        h.wf(),
        h.are_atoms(atoms),
        h.all_live(stack),
    ensures
        h.read_from(atoms, stack, input) matches Ok((h1, s1)) ==> {
            &&& h.builds(h1, input.len())
            &&& h1.all_live(s1)
            &&& Term::postfix(h.terms(stack), input) == Some(h1.terms(s1))
        },
        h.room() >= input.len() ==> (h.read_from(atoms, stack, input) is Ok <==> Term::postfix(
            h.terms(stack),
            input,
        ) is Some),
        h.read_from(atoms, stack, input) matches Err(e) ==> (e == ParseError::Underflow
            && Term::postfix(h.terms(stack), input) is None) || e is Alloc,
        h.room() >= input.len() ==> !(h.read_from(atoms, stack, input) matches Err(e) && e is Alloc),
    decreases input.len(),
{
    if input.len() == 0 {
        crate::heap::lemma_builds_refl(h);
    } else if atoms.of(input[0]) is Some {
        let n = atoms.of(input[0])->0;
        let stack1 = stack.push(n);
        assert(h.terms(stack1) =~= h.terms(stack).push(h.term(n)));
        lemma_read_from(h, atoms, stack1, input.skip(1));
    } else if input[0] == 0x2d {
        if stack.len() >= 2 {
            let x = stack[stack.len() - 2];
            let y = stack[stack.len() - 1];
            let node = Node { tag: APP, a: x, b: y };
            crate::heap::lemma_alloc(h, node);
            if let Ok((h1, i)) = h.grow(node) {
                let stack1 = stack.take(stack.len() - 2).push(i);
                assert(h1.terms(stack1) =~= h.terms(stack).take(stack.len() - 2).push(
                    Term::app(h.term(x), h.term(y)),
                ));
                assert(h1.are_atoms(atoms));
                lemma_read_from(h1, atoms, stack1, input.skip(1));
                if let Ok((h2, s2)) = h1.read_from(atoms, stack1, input.skip(1)) {
                    crate::heap::lemma_builds_trans(h, h1, h2, 1, (input.len() - 1) as nat);
                }
            }
        }
    } else {
        lemma_read_from(h, atoms, stack, input.skip(1));
    }
}

/// A parsed node stands for the expression that the input denotes. With room
/// for the input, an input is refused exactly where it is not one expression.
pub proof fn lemma_parse(h: Heap, input: Seq<u8>)
    requires
        h.wf(),
    ensures
        h.parse(input) matches Ok((h1, r)) ==> {
            &&& h.builds(h1, input.len() + 3)
            &&& h1.live(r)
            &&& Term::postfix(Seq::empty(), input) == Some(seq![h1.term(r)])
        },
        h.room() >= input.len() + 3 ==> match Term::postfix(Seq::empty(), input) {
            None => h.parse(input) == Err::<(Heap, u32), ParseError>(ParseError::Underflow),
            Some(ts) => if ts.len() == 1 {
                h.parse(input) is Ok
            } else {
                h.parse(input) == Err::<(Heap, u32), ParseError>(
                    ParseError::Leftover(ts.len() as usize),
                )
            },
        },
{
    lemma_atoms(h);
    if let Ok((h0, atoms)) = h.atoms() {
        lemma_read_from(h0, atoms, Seq::empty(), input);
        assert(h0.terms(Seq::empty()) =~= Seq::<Term>::empty());
        if let Ok((h1, stack)) = h0.read_from(atoms, Seq::empty(), input) {
            crate::heap::lemma_builds_trans(h, h0, h1, 3, input.len());
            if stack.len() == 1 {
                assert(h1.terms(stack) =~= seq![h1.term(stack[0])]);
            }
        }
    }
}

/// The notation of an expression denotes it.
pub proof fn lemma_compact(t: Term, stack: Seq<Term>, rest: Seq<u8>)
    requires
        t.is_ski(),
    ensures
        Term::postfix(stack, t.compact() + rest) == Term::postfix(stack.push(t), rest),
    decreases t,
{
    match t {
        Term::Atom(tag) => {
            assert((t.compact() + rest).skip(1) =~= rest);
        },
        Term::App(f, x) => {
            let after = seq![0x2du8] + rest;
            assert(t.compact() + rest =~= f.compact() + (x.compact() + after));
            lemma_compact(*f, stack, x.compact() + after);
            lemma_compact(*x, stack.push(*f), after);
            assert(after.skip(1) =~= rest);
            let s2 = stack.push(*f).push(*x);
            assert(s2.take(s2.len() - 2) =~= stack);
        },
    }
}

/// Reading the notation of an expression gives a node for that expression.
pub proof fn lemma_parse_compact(h: Heap, t: Term)
    requires
        h.wf(),
        t.is_ski(),
        h.room() >= t.compact().len() + 3,
    ensures
        h.parse(t.compact()) matches Ok((h1, r)) && h1.term(r) == t,
{
    lemma_parse(h, t.compact());
    lemma_compact(t, Seq::empty(), Seq::empty());
    assert(t.compact() + Seq::<u8>::empty() =~= t.compact());
    let s = Seq::<Term>::empty().push(t);
    assert(Term::postfix(Seq::empty(), t.compact()) == Some(s));
    if let Ok((h1, r)) = h.parse(t.compact()) {
        assert(s[0] == seq![h1.term(r)][0]);
    }
}

/// A character that stands for something.
pub open spec fn is_symbol(c: u8) -> bool {
    c == 0x6b || c == 0x58 || c == 0x44 || c == 0x2d
}

/// An input without the characters that stand for nothing.
pub open spec fn symbols(input: Seq<u8>) -> Seq<u8>
    decreases input.len(),
{
    if input.len() == 0 {
        Seq::empty()
    } else if is_symbol(input[0]) {
        seq![input[0]] + symbols(input.skip(1))
    } else {
        symbols(input.skip(1))
    }
}

proof fn lemma_read_symbols(h: Heap, atoms: Atoms, stack: Seq<u32>, input: Seq<u8>)
    ensures
        h.read_from(atoms, stack, input) == h.read_from(atoms, stack, symbols(input)),
    decreases input.len(),
{
    if input.len() > 0 {
        let rest = input.skip(1);
        if is_symbol(input[0]) {
            assert(symbols(input).skip(1) =~= symbols(rest));
            assert(symbols(input)[0] == input[0]);
            if atoms.of(input[0]) is Some {
                lemma_read_symbols(h, atoms, stack.push(atoms.of(input[0])->0), rest);
            } else if stack.len() >= 2 {
                let x = stack[stack.len() - 2];
                let y = stack[stack.len() - 1];
                if let Ok((h1, i)) = h.grow(Node { tag: APP, a: x, b: y }) {
                    lemma_read_symbols(h1, atoms, stack.take(stack.len() - 2).push(i), rest);
                }
            }
        } else {
            lemma_read_symbols(h, atoms, stack, rest);
        }
    }
}

/// Characters that stand for nothing make no difference.
pub proof fn lemma_parse_symbols(h: Heap, input: Seq<u8>)
    ensures
        h.parse(input) == h.parse(symbols(input)),
{
    if let Ok((h1, atoms)) = h.atoms() {
        lemma_read_symbols(h1, atoms, Seq::empty(), input);
    }
}

/// Reading the notation of an expression gives a node for that expression, whatever
/// else stands between its characters.
pub proof fn lemma_parse_text(h: Heap, input: Seq<u8>, t: Term)
    requires
        h.wf(),
        t.is_ski(),
        symbols(input) == t.compact(),
        h.room() >= t.compact().len() + 3,
    ensures
        h.parse(input) matches Ok((h1, r)) && h1.term(r) == t,
{
    lemma_parse_symbols(h, input);
    lemma_parse_compact(h, t);
}

/// By how much the combinators of an input outnumber its applications.
pub open spec fn height(input: Seq<u8>) -> int
    decreases input.len(),
{
    if input.len() == 0 {
        0
    } else {
        let c = input.last();
        height(input.drop_last()) + if c == 0x6b || c == 0x58 || c == 0x44 {
            1int
        } else if c == 0x2d {
            -1
        } else {
            0
        }
    }
}

/// The application at a place has less than two expressions before it.
pub open spec fn lacks_operand(input: Seq<u8>, k: int) -> bool {
    0 <= k < input.len() && input[k] == 0x2d && height(input.take(k)) < 2
}

proof fn lemma_postfix_height(stack: Seq<Term>, input: Seq<u8>, k: int)
    requires
        0 <= k <= input.len(),
        stack.len() == height(input.take(k)),
    ensures
        Term::postfix(stack, input.skip(k)) is None <==> exists|j: int|
            k <= j && #[trigger] lacks_operand(input, j),
        Term::postfix(stack, input.skip(k)) matches Some(ts) ==> ts.len() == height(input),
    decreases input.len() - k,
{
    let rest = input.skip(k);
    if k == input.len() {
        assert(input.take(k) =~= input);
        assert(!(exists|j: int| k <= j && #[trigger] lacks_operand(input, j)));
    } else {
        assert(rest.skip(1) =~= input.skip(k + 1));
        assert(rest[0] == input[k]);
        assert(input.take(k + 1).drop_last() =~= input.take(k));
        assert(input.take(k + 1).last() == input[k]);
        if lacks_operand(input, k) {
            assert(Term::postfix(stack, rest) is None);
        } else {
            let next = if input[k] == 0x6b {
                stack.push(Term::Atom(S))
            } else if input[k] == 0x58 {
                stack.push(Term::Atom(K))
            } else if input[k] == 0x44 {
                stack.push(Term::Atom(I))
            } else if input[k] == 0x2d {
                stack.take(stack.len() - 2).push(
                    Term::app(stack[stack.len() - 2], stack[stack.len() - 1]),
                )
            } else {
                stack
            };
            assert(Term::postfix(stack, rest) == Term::postfix(next, input.skip(k + 1)));
            lemma_postfix_height(next, input, k + 1);
            if Term::postfix(stack, rest) is None {
                let j = choose|j: int| k + 1 <= j && #[trigger] lacks_operand(input, j);
                assert(k <= j && lacks_operand(input, j));
            }
        }
    }
}

/// An input is refused exactly where some application lacks an operand, or where
/// not one expression is left: then as many are left as the combinators outnumber
/// the applications.
pub proof fn lemma_parse_refused(h: Heap, input: Seq<u8>)
    requires
        h.wf(),
        h.room() >= input.len() + 3,
    ensures
        if exists|k: int| #[trigger] lacks_operand(input, k) {
            h.parse(input) == Err::<(Heap, u32), ParseError>(ParseError::Underflow)
        } else if height(input) == 1 {
            h.parse(input) is Ok
        } else {
            h.parse(input) == Err::<(Heap, u32), ParseError>(
                ParseError::Leftover(height(input) as usize),
            )
        },
{
    lemma_parse(h, input);
    assert(input.take(0) =~= Seq::<u8>::empty());
    assert(input.skip(0) =~= input);
    lemma_postfix_height(Seq::empty(), input, 0);
    if exists|k: int| #[trigger] lacks_operand(input, k) {
        let k = choose|k: int| #[trigger] lacks_operand(input, k);
        assert(0 <= k && lacks_operand(input, k));
    }
}

impl Arena {
    fn atoms(&mut self) -> (r: Result<Atoms, AllocError>)
        requires
            old(self)@.wf(),
        ensures
            Heap::ran(old(self)@.atoms(), final(self)@, r),
            old(self)@.leads_to(final(self)@),
            r matches Ok(atoms) ==> final(self)@.are_atoms(atoms),
    {
        proof {
            lemma_atoms(self@);
        }
        let s: u32 = self.allocate(S, NIL, NIL)?;
        let k: u32 = self.allocate(K, NIL, NIL)?;
        let i: u32 = self.allocate(I, NIL, NIL)?;
        Ok(Atoms { s, k, i })
    }
}

/// Reads an expression in compact notation.
pub fn parse_compact(arena: &mut Arena, input: &[u8]) -> (r: Result<u32, ParseError>)
    requires
        old(arena)@.wf(),
    ensures
        match r {
            Ok(i) => old(arena)@.parse(input@) == Ok::<(Heap, u32), ParseError>((final(arena)@, i)),
            Err(e) => old(arena)@.parse(input@) == Err::<(Heap, u32), ParseError>(e),
        },
        old(arena)@.leads_to(final(arena)@),
        r matches Ok(i) ==> final(arena)@.live(i) && Term::postfix(Seq::empty(), input@) == Some(
            seq![final(arena)@.term(i)],
        ) && old(arena)@.builds(final(arena)@, input@.len() + 3),
        old(arena)@.room() >= input@.len() + 3 ==> match Term::postfix(Seq::empty(), input@) {
            None => r == Err::<u32, ParseError>(ParseError::Underflow),
            Some(ts) => if ts.len() == 1 {
                r is Ok
            } else {
                r == Err::<u32, ParseError>(ParseError::Leftover(ts.len() as usize))
            },
        },
{
    let ghost h0 = arena@;
    proof {
        lemma_parse(h0, input@);
    }
    let atoms = match arena.atoms() {
        Err(e) => return Err(ParseError::Alloc(e)),
        Ok(atoms) => atoms,
    };
    let ghost h1 = arena@;
    let mut stack: Vec<u32> = Vec::with_capacity(1024);
    let mut k: usize = 0;
    proof {
        assert(input@.skip(0) =~= input@);
        assert(stack@ =~= Seq::empty());
    }
    while k < input.len()
        invariant
            k <= input@.len(),
            h0 == old(arena)@,
            h0.wf(),
            arena@.wf(),
            h0.leads_to(arena@),
            h0.atoms() == Ok::<(Heap, Atoms), AllocError>((h1, atoms)),
            arena@.live(atoms.s) && arena@.live(atoms.k) && arena@.live(atoms.i),
            arena@.all_live(stack@),
            arena@.read_from(atoms, stack@, input@.skip(k as int)) == h1.read_from(
                atoms,
                Seq::empty(),
                input@,
            ),
        decreases input.len() - k,
    {
        let ghost rest = input@.skip(k as int);
        let ghost s0 = stack@;
        proof {
            assert(rest.skip(1) =~= input@.skip(k + 1));
            assert(rest[0] == input@[k as int]);
        }
        let c: u8 = input[k];
        if c == 0x6b {
            stack.push(atoms.s);
        } else if c == 0x58 {
            stack.push(atoms.k);
        } else if c == 0x44 {
            stack.push(atoms.i);
        } else if c == 0x2d {
            if stack.len() < 2 {
                proof {
                    lemma_parse(h0, input@);
                }
                return Err(ParseError::Underflow);
            }
            let y: u32 = stack.pop().unwrap();
            let x: u32 = stack.pop().unwrap();
            proof {
                assert(s0[s0.len() - 1] == y && s0[s0.len() - 2] == x);
                assert(stack@ =~= s0.take(s0.len() - 2));
            }
            match arena.allocate(APP, x, y) {
                Err(e) => {
                    proof {
                        lemma_parse(h0, input@);
                    }
                    return Err(ParseError::Alloc(e));
                },
                Ok(i) => {
                    stack.push(i);
                },
            }
        }
        k += 1;
    }
    proof {
        assert(input@.skip(k as int) =~= Seq::empty());
    }
    if stack.len() == 1 {
        Ok(stack[0])
    } else {
        Err(ParseError::Leftover(stack.len()))
    }
}

} // verus!
