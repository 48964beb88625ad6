use ski_eval::arena::Arena;
use ski_eval::encode::{make_false, make_pair, make_true};
use ski_eval::heap::ARENA_HARD_LIMIT;
use ski_eval::integer::decode_string;
use ski_eval::io::{
    element_label, io_limit, make_list, next_move, output_parts, read_instruction, resume,
    scan_list, scan_text, Action, Convention, Instruction, Move, Then, MAX_STEPS,
};
use ski_eval::node::{I, K, K1, NIL, S, S2};
use ski_eval::select::decode_bool;

const FUEL: u64 = 50_000_000;

/// `S (S I (K a)) (K b)`
fn pair1(arena: &mut Arena, a: u32, b: u32) -> u32 {
    let i = arena.allocate(I, NIL, NIL).unwrap();
    let ka = arena.allocate(K1, a, NIL).unwrap();
    let hand = arena.allocate(S2, i, ka).unwrap();
    let kb = arena.allocate(K1, b, NIL).unwrap();
    arena.allocate(S2, hand, kb).unwrap()
}

fn church(arena: &mut Arena, n: u64) -> u32 {
    let mut node = make_false(arena).unwrap();
    for _ in 0..n {
        let s = arena.allocate(S, NIL, NIL).unwrap();
        let k = arena.allocate(K, NIL, NIL).unwrap();
        let ks = arena.allocate(K1, s, NIL).unwrap();
        let compose = arena.allocate(S2, ks, k).unwrap();
        node = arena.allocate(S2, compose, node).unwrap();
    }
    node
}

fn instruction(arena: &mut Arena, p1: u64, p2: u64, operand: u32) -> u32 {
    let a = church(arena, p1);
    let b = church(arena, p2);
    let tag = pair1(arena, a, b);
    pair1(arena, tag, operand)
}

#[test]
fn limits_grow_with_the_arena() {
    assert_eq!(io_limit(0, None), 50_000_000);
    assert_eq!(io_limit(1_000_000, None), 51_000_000);
    assert_eq!(io_limit(10_000_000, None), 80_000_000);
    assert_eq!(io_limit(300_000_000, None), ARENA_HARD_LIMIT);
    assert_eq!(io_limit(usize::MAX, None), ARENA_HARD_LIMIT);
    assert_eq!(io_limit(10, Some(7)), 7);
    assert_eq!(io_limit(10, Some(0)), 1);
    assert_eq!(io_limit(10, Some(usize::MAX)), ARENA_HARD_LIMIT);
}

#[test]
fn instructions_and_their_actions() {
    let mut arena = Arena::new(16);
    let operand = arena.intern_k().unwrap();
    let expected = [
        (0, 0, Action::Halt),
        (1, 0, Action::WriteInteger),
        (1, 1, Action::WriteString),
        (1, 2, Action::WriteImage),
        (1, 3, Action::WriteOther),
        (2, 1, Action::Read),
        (3, 0, Action::Unknown),
    ];
    for (p1, p2, action) in expected {
        let node = instruction(&mut arena, p1, p2, operand);
        let ins = read_instruction(&mut arena, node, FUEL).unwrap();
        assert_eq!(ins.p1, Some(p1));
        assert_eq!(ins.p2, Some(p2));
        assert_eq!(arena.node(ins.operand).tag, K);
        assert_eq!(ins.action(), action);
    }
}

#[test]
fn a_tag_without_numerals() {
    let mut arena = Arena::new(16);
    let s = arena.allocate(S, NIL, NIL).unwrap();
    let tag = pair1(&mut arena, s, s);
    let node = pair1(&mut arena, tag, s);
    let ins = read_instruction(&mut arena, node, FUEL).unwrap();
    assert_eq!(ins.p1, None);
    assert_eq!(ins.action(), Action::NoNumeral);
}

#[test]
fn data_and_continuation() {
    let mut arena = Arena::new(16);
    let t = make_true(&mut arena).unwrap();
    let f = make_false(&mut arena).unwrap();
    let operand = pair1(&mut arena, t, f);
    let (data, cont) = output_parts(&mut arena, operand, FUEL).unwrap();
    assert_eq!(decode_bool(&mut arena, data, FUEL).unwrap(), Some(true));
    assert_eq!(decode_bool(&mut arena, cont, FUEL).unwrap(), Some(false));
}

#[test]
fn lists_in_both_conventions() {
    let mut arena = Arena::new(16);
    let list = make_list(&mut arena, &vec![72, 105]).unwrap();
    let scan = scan_list(&mut arena, list, Convention::ValueFirst, FUEL).unwrap();
    assert!(scan.ended);
    let numbers: Vec<Option<u64>> = scan.items.iter().map(|e| e.number).collect();
    assert_eq!(numbers, vec![Some(72), Some(105)]);
    let labels: Vec<String> = scan.items.iter().map(element_label).collect();
    assert_eq!(labels, vec!["72", "105"]);
    assert_eq!(scan_text(&scan.items), "Hi");
    assert!(scan.items[0].text.is_some());
    let nil = make_false(&mut arena).unwrap();
    let t = make_true(&mut arena).unwrap();
    let rest_first = make_pair(&mut arena, nil, t).unwrap();
    let other = scan_list(&mut arena, rest_first, Convention::RestFirst, FUEL).unwrap();
    assert!(other.ended);
    assert_eq!(other.items.len(), 1);
}

#[test]
fn an_endless_list_is_scanned_in_part() {
    let mut arena = Arena::new(16);
    let list = make_list(&mut arena, &vec![1; 201]).unwrap();
    let scan = scan_list(&mut arena, list, Convention::ValueFirst, FUEL).unwrap();
    assert!(!scan.ended);
    assert_eq!(scan.items.len(), 200);
    assert!(scan.items[39].text.is_some());
    assert!(scan.items[40].text.is_none());
}

#[test]
fn strings_round_trip() {
    let mut arena = Arena::new(16);
    let node = make_list(&mut arena, &vec![5, 0, 17, 5, 3]).unwrap();
    let text = decode_string(&mut arena, node, 4 * FUEL).unwrap();
    let codes: Vec<u32> = text.chars().map(|c| c as u32).collect();
    assert_eq!(codes, vec![3, 5, 17, 0, 5]);
}

#[test]
fn reading_resumes_with_the_input() {
    let mut arena = Arena::new(16);
    let i = arena.intern_i().unwrap();
    let input = make_true(&mut arena).unwrap();
    let mut fuel = 100;
    let r = resume(&mut arena, i, input, &mut fuel).unwrap();
    assert_eq!(r, input);
    assert_eq!(fuel, 99);
}

#[test]
fn what_follows_an_instruction() {
    let ins = |p1, p2| Instruction {
        tag: 0,
        operand: 0,
        p1_node: 0,
        p2_node: 0,
        p1,
        p2,
    };
    let after = |step, p1, p2| next_move(step, &ins(p1, p2));
    let m = |action, then| Move { action, then };
    assert_eq!(after(1, Some(0), None), m(Action::Halt, Then::End));
    assert_eq!(after(1, Some(2), None), m(Action::Read, Then::Step(2)));
    assert_eq!(
        after(7, Some(1), Some(2)),
        m(Action::WriteImage, Then::Step(8))
    );
    assert_eq!(
        after(MAX_STEPS, Some(1), Some(0)),
        m(Action::WriteInteger, Then::TooMany)
    );
    assert_eq!(after(MAX_STEPS, Some(0), None), m(Action::Halt, Then::End));
    assert_eq!(after(3, Some(9), None), m(Action::Unknown, Then::End));
    assert_eq!(after(3, None, None), m(Action::NoNumeral, Then::End));
}
