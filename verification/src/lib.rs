//! A lazy graph-reduction evaluator for the SKI combinator calculus.
//!
//! Programs are graphs of nodes in an [`arena::Arena`]; reduction overwrites
//! nodes in place, so that work on a shared node is done once.

pub mod arena;
pub mod bitmap;
pub mod called;
pub mod church;
pub mod commands;
pub mod decode;
pub mod drawn;
pub mod encode;
pub mod gc;
pub mod graph;
pub mod grid;
pub mod heap;
pub mod image;
pub mod integer;
pub mod intern;
pub mod io;
pub mod journey;
pub mod keys;
pub mod laws;
pub mod letters;
pub mod lists;
pub mod machine;
pub mod meaning;
pub mod node;
pub mod parse;
pub mod partial;
pub mod parts;
pub mod pause;
pub mod pgm;
pub mod readings;
pub mod reduce;
pub mod scene;
pub mod search;
pub mod select;
pub mod shared;
pub mod shown;
pub mod standard;
pub mod stream;
pub mod sweep;
pub mod table;
pub mod term;
pub mod text;
pub mod tree;
pub mod value;
pub mod zoom;
