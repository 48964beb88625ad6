use ski_eval::arena::Arena;
use ski_eval::heap::AllocError;
use ski_eval::parse::{parse_compact, ParseError};
use ski_eval::text::describe;

fn read(text: &str) -> Result<String, ParseError> {
    let mut arena = Arena::new(16);
    let node = parse_compact(&mut arena, text.as_bytes())?;
    Ok(describe(&arena, node, 0))
}

#[test]
fn combinators_have_their_letters() {
    assert_eq!(read("k").unwrap(), "S");
    assert_eq!(read("X").unwrap(), "K");
    assert_eq!(read("D").unwrap(), "I");
}

#[test]
fn a_dash_applies() {
    assert_eq!(read("XD-").unwrap(), "(K I)");
    assert_eq!(read("kXX--D-").unwrap(), "((S (K K)) I)");
    assert_eq!(read("kX-D-").unwrap(), "((S K) I)");
}

#[test]
fn other_characters_are_skipped() {
    assert_eq!(read(" X\n\r D?-q").unwrap(), "(K I)");
}

#[test]
fn operands_are_missing() {
    assert_eq!(read("-"), Err(ParseError::Underflow));
    assert_eq!(read("X-"), Err(ParseError::Underflow));
}

#[test]
fn the_input_is_not_one_expression() {
    assert_eq!(read(""), Err(ParseError::Leftover(0)));
    assert_eq!(read("XD"), Err(ParseError::Leftover(2)));
    assert_eq!(read("XDkX-"), Err(ParseError::Leftover(3)));
}

#[test]
fn the_arena_is_full() {
    let mut arena = Arena::new(16);
    arena.enable_io_alloc_failsafe(3);
    assert_eq!(
        parse_compact(&mut arena, b"XD-"),
        Err(ParseError::Alloc(AllocError::Failsafe))
    );
    let mut small = Arena::new(16);
    small.enable_io_alloc_failsafe(2);
    assert_eq!(
        parse_compact(&mut small, b"X"),
        Err(ParseError::Alloc(AllocError::Failsafe))
    );
}

#[test]
fn combinators_share_a_node() {
    let mut arena = Arena::new(16);
    let node = parse_compact(&mut arena, b"XX-").unwrap();
    assert_eq!(arena.len(), 4);
    assert_eq!(arena.node(node).a, arena.node(node).b);
}
