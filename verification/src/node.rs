//! Graph nodes and their tags.

use vstd::prelude::*;

verus! {

/// An application: `a` applied to `b`.
pub const APP: u8 = 0;

/// The combinator `S`.
pub const S: u8 = 1;

/// The combinator `K`.
pub const K: u8 = 2;

/// The combinator `I`.
pub const I: u8 = 3;

/// `S` applied to `a`.
pub const S1: u8 = 4;

/// `S` applied to `a` and `b`.
pub const S2: u8 = 5;

/// `K` applied to `a`.
pub const K1: u8 = 6;

/// An indirection to `a`: the node was reduced to it.
pub const IND: u8 = 7;

/// The marker that stands for the first argument of a boolean.
pub const MARKER_T: u8 = 100;

/// The marker that stands for the second argument of a boolean.
pub const MARKER_F: u8 = 101;

/// The marker that stands for the function argument of a Church numeral.
pub const MARKER_SUCC: u8 = 110;

/// The marker that stands for the base argument of a Church numeral.
pub const MARKER_ZERO: u8 = 111;

/// The child of a node that has none.
pub const NIL: u32 = u32::MAX;

/// One node of the graph. Which children count depends on the tag.
#[derive(Clone, Copy, PartialEq, Eq, Structural, Debug)]
pub struct Node {
    pub tag: u8,
    /// Left child, first argument, or indirection target.
    pub a: u32,
    /// Right child, or second argument.
    pub b: u32,
}

impl Node {
    /// The node points at a first child: its tag asks for one, or it is left
    /// over from an earlier content of the node.
    pub open spec fn has_a(self) -> bool {
        self.a != NIL || self.tag == APP || self.tag == S1 || self.tag == S2 || self.tag == K1
            || self.tag == IND
    }

    /// The node points at a second child: its tag asks for one, or it is left
    /// over from an earlier content of the node.
    pub open spec fn has_b(self) -> bool {
        self.b != NIL || self.tag == APP || self.tag == S2
    }

    /// `c` is a child.
    pub open spec fn child(self, c: u32) -> bool {
        (self.has_a() && self.a == c) || (self.has_b() && self.b == c)
    }

    /// A node without children.
    pub open spec fn leaf(tag: u8) -> Node {
        Node { tag, a: NIL, b: NIL }
    }
}

} // verus!
