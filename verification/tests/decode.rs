use ski_eval::arena::Arena;
use ski_eval::church::decode_church_num;
use ski_eval::decode::{bits_value, decode_bool_list, decode_number_list, list_cell};
use ski_eval::encode::{make_false, make_pair, make_scott_num, make_true};
use ski_eval::integer::{
    bits_integer, char_of, decode_integer, decode_string, in_code_range, read_string,
};
use ski_eval::io::make_list;
use ski_eval::node::{APP, I, K, K1, NIL, S, S2};
use ski_eval::parse::parse_compact;
use ski_eval::select::{decode_bool, pair1_fst, pair1_snd, pair_fst, pair_snd};
use ski_eval::stream::{stream, stream_next, StreamItem};
use ski_eval::tree::collect_bool_leaves;

const FUEL: u64 = 100_000_000;

fn bool_list(arena: &mut Arena, bits: &[bool]) -> u32 {
    let mut node = make_false(arena).unwrap();
    for &b in bits.iter().rev() {
        let head = if b {
            make_true(arena).unwrap()
        } else {
            make_false(arena).unwrap()
        };
        node = make_pair(arena, head, node).unwrap();
    }
    node
}

/// `S (S (K S) K) n`
fn successor(arena: &mut Arena, n: u32) -> u32 {
    let s = arena.allocate(S, NIL, NIL).unwrap();
    let k = arena.allocate(K, NIL, NIL).unwrap();
    let ks = arena.allocate(K1, s, NIL).unwrap();
    let compose = arena.allocate(S2, ks, k).unwrap();
    arena.allocate(S2, compose, n).unwrap()
}

fn church(arena: &mut Arena, n: u64) -> u32 {
    let mut node = make_false(arena).unwrap();
    for _ in 0..n {
        node = successor(arena, node);
    }
    node
}

#[test]
fn lists_of_numbers() {
    let mut arena = Arena::new(16);
    let list = make_list(&mut arena, &vec![3, 0, 255, 7]).unwrap();
    assert_eq!(
        decode_number_list(&mut arena, list, FUEL, 100).unwrap(),
        vec![3, 0, 255, 7]
    );
    assert_eq!(
        decode_number_list(&mut arena, list, FUEL, 2).unwrap(),
        vec![3, 0]
    );
    assert_eq!(
        decode_number_list(&mut arena, list, 0, 100).unwrap(),
        Vec::<u64>::new()
    );
}

#[test]
fn long_lists_of_numbers() {
    let mut arena = Arena::new(0);
    let mut list = make_false(&mut arena).unwrap();
    for _ in 0..10 {
        let two = make_scott_num(&mut arena, 2).unwrap();
        list = make_pair(&mut arena, two, list).unwrap();
    }
    assert_eq!(
        decode_number_list(&mut arena, list, FUEL, 100).unwrap(),
        vec![2u64; 10]
    );
    let numbers: Vec<u64> = (0..300).collect();
    let list = make_list(&mut arena, &numbers).unwrap();
    assert_eq!(
        decode_number_list(&mut arena, list, 1_000_000, 100_000).unwrap(),
        numbers
    );
    assert_eq!(
        decode_number_list(&mut arena, list, FUEL, 12).unwrap(),
        numbers[..12].to_vec()
    );
}

#[test]
fn long_lists_of_booleans() {
    let mut arena = Arena::new(0);
    let bits: Vec<bool> = (0..100).map(|k| k % 3 == 0).collect();
    let list = bool_list(&mut arena, &bits);
    assert_eq!(
        decode_bool_list(&mut arena, list, 2_000, 100_000).unwrap(),
        bits
    );
}

#[test]
fn the_empty_list() {
    let mut arena = Arena::new(16);
    let nil = make_false(&mut arena).unwrap();
    assert_eq!(
        decode_number_list(&mut arena, nil, FUEL, 100).unwrap(),
        Vec::<u64>::new()
    );
    assert_eq!(
        decode_bool_list(&mut arena, nil, FUEL, 100).unwrap(),
        Vec::<bool>::new()
    );
    assert!(list_cell(&mut arena, nil, FUEL).unwrap().is_none());
}

#[test]
fn lists_of_booleans() {
    let mut arena = Arena::new(16);
    let bits = [true, false, false, true, true];
    let list = bool_list(&mut arena, &bits);
    assert_eq!(
        decode_bool_list(&mut arena, list, FUEL, 100).unwrap(),
        bits.to_vec()
    );
    assert_eq!(
        decode_bool_list(&mut arena, list, FUEL, 3).unwrap(),
        bits[..3].to_vec()
    );
}

#[test]
fn a_list_comes_apart() {
    let mut arena = Arena::new(16);
    let list = bool_list(&mut arena, &[true, false]);
    let cell = list_cell(&mut arena, list, FUEL).unwrap().unwrap();
    assert_eq!(
        decode_bool(&mut arena, cell.head, FUEL).unwrap(),
        Some(true)
    );
    let rest = list_cell(&mut arena, cell.tail, FUEL).unwrap().unwrap();
    assert_eq!(
        decode_bool(&mut arena, rest.head, FUEL).unwrap(),
        Some(false)
    );
    assert!(list_cell(&mut arena, rest.tail, FUEL).unwrap().is_none());
}

#[test]
fn binary_digits() {
    assert_eq!(bits_value(&vec![]), 0);
    assert_eq!(bits_value(&vec![true, false, true]), 5);
    assert_eq!(bits_value(&vec![true; 64]), u64::MAX);
}

#[test]
fn the_last_digit_is_the_sign() {
    assert_eq!(bits_integer(&vec![]), 0);
    assert_eq!(bits_integer(&vec![true]), -1);
    assert_eq!(bits_integer(&vec![true, false]), 1);
    assert_eq!(bits_integer(&vec![false, true, true]), -2);
    assert_eq!(bits_integer(&vec![true, false, true, false]), 5);
    assert_eq!(bits_integer(&vec![true; 64]), -1);
    let mut least = vec![false; 64];
    least[63] = true;
    assert_eq!(bits_integer(&least), i64::MIN);
    let mut most = vec![true; 64];
    most[63] = false;
    assert_eq!(bits_integer(&most), i64::MAX);
}

#[test]
fn integers_from_lists() {
    let mut arena = Arena::new(16);
    let five = bool_list(&mut arena, &[true, false, true, false]);
    assert_eq!(decode_integer(&mut arena, five, FUEL).unwrap(), Some(5));
    let minus_three = bool_list(&mut arena, &[true, false, true]);
    assert_eq!(
        decode_integer(&mut arena, minus_three, FUEL).unwrap(),
        Some(-3)
    );
    let nil = make_false(&mut arena).unwrap();
    assert_eq!(decode_integer(&mut arena, nil, FUEL).unwrap(), Some(0));
    let s = arena.allocate(S, NIL, NIL).unwrap();
    let list = make_pair(&mut arena, s, nil).unwrap();
    assert_eq!(decode_integer(&mut arena, list, FUEL).unwrap(), None);
}

#[test]
fn characters_from_codes() {
    assert_eq!(char_of(Some(65)), 'A');
    assert_eq!(char_of(Some(0x3042)), 'あ');
    assert_eq!(char_of(Some(0x10ffff)), '\u{10ffff}');
    assert_eq!(char_of(Some(0x110000)), '?');
    assert_eq!(char_of(Some(0xd800)), '?');
    assert_eq!(char_of(Some(-1)), '?');
    assert_eq!(char_of(None), '?');
}

#[test]
fn strings_start_with_the_last_character() {
    let mut arena = Arena::new(16);
    let codes: Vec<u64> = "olleh".chars().map(|c| c as u64).collect();
    let list = make_list(&mut arena, &codes).unwrap();
    assert_eq!(
        decode_string(&mut arena, list, 200_000_000).unwrap(),
        "hello".to_string()
    );
    let odd = make_list(&mut arena, &vec![0xd800, 66, u64::MAX]).unwrap();
    assert_eq!(
        decode_string(&mut arena, odd, 200_000_000).unwrap(),
        "?B?".to_string()
    );
    let nil = make_false(&mut arena).unwrap();
    assert_eq!(decode_string(&mut arena, nil, 200_000_000).unwrap(), "");
}

#[test]
fn characters_can_be_integers() {
    let mut arena = Arena::new(16);
    // As a binary number this has no end, so it is read as an integer.
    let s = arena.allocate(S, NIL, NIL).unwrap();
    let nil = make_false(&mut arena).unwrap();
    let list = make_pair(&mut arena, s, nil).unwrap();
    assert_eq!(decode_string(&mut arena, list, 200_000_000).unwrap(), "?");
}

#[test]
fn church_numerals() {
    let mut arena = Arena::new(16);
    for n in 0..8 {
        let node = church(&mut arena, n);
        assert_eq!(
            decode_church_num(&mut arena, node, 5 * n + 3).unwrap(),
            Some(n)
        );
    }
}

#[test]
fn a_church_numeral_needs_its_fuel() {
    let mut arena = Arena::new(16);
    let node = church(&mut arena, 3);
    assert_eq!(decode_church_num(&mut arena, node, 17).unwrap(), None);
    let node = church(&mut arena, 3);
    assert_eq!(decode_church_num(&mut arena, node, 18).unwrap(), Some(3));
}

#[test]
fn the_identity_is_the_numeral_one() {
    let mut arena = Arena::new(16);
    let i = arena.intern_i().unwrap();
    assert_eq!(decode_church_num(&mut arena, i, FUEL).unwrap(), Some(1));
}

#[test]
fn what_is_stuck_is_no_numeral() {
    let mut arena = Arena::new(16);
    let s = arena.allocate(S, NIL, NIL).unwrap();
    assert_eq!(decode_church_num(&mut arena, s, FUEL).unwrap(), None);
    let k = arena.intern_k().unwrap();
    assert_eq!(decode_church_num(&mut arena, k, FUEL).unwrap(), None);
}

#[test]
fn pairs_that_take_one_argument() {
    let mut arena = Arena::new(16);
    // S (S I (K K)) (K I)
    let p = parse_compact(&mut arena, b"kkD-XX---XD--").unwrap();
    let mut f1 = 100;
    let a = pair1_fst(&mut arena, p, &mut f1).unwrap();
    assert_eq!(arena.node(a).tag, K);
    assert_eq!(f1, 95);
    let mut f2 = 100;
    let b = pair1_snd(&mut arena, p, &mut f2).unwrap();
    assert_eq!(arena.node(b).tag, I);
    assert_eq!(f2, 94);
}

#[test]
fn leaves_from_left_to_right() {
    let mut arena = Arena::new(16);
    let t = make_true(&mut arena).unwrap();
    let f = make_false(&mut arena).unwrap();
    let left = make_pair(&mut arena, t, f).unwrap();
    let right = make_pair(&mut arena, f, f).unwrap();
    let inner = make_pair(&mut arena, right, t).unwrap();
    let tree = make_pair(&mut arena, left, inner).unwrap();
    let mut fuel = FUEL;
    let mut leaves = Vec::new();
    collect_bool_leaves(&mut arena, tree, &mut fuel, &mut leaves, 100).unwrap();
    assert_eq!(leaves, vec![1, 0, 0, 0, 1]);
    assert_eq!(FUEL - fuel, 4 * 17);
    let mut few = Vec::new();
    collect_bool_leaves(&mut arena, tree, &mut fuel, &mut few, 2).unwrap();
    assert_eq!(few, vec![1, 0]);
    let mut none = Vec::new();
    let mut empty = 0;
    collect_bool_leaves(&mut arena, tree, &mut empty, &mut none, 100).unwrap();
    assert_eq!(none, Vec::<u8>::new());
}

#[test]
fn streams_of_bytes() {
    let mut arena = Arena::new(16);
    let list = make_list(&mut arena, &vec![72, 300, 105]).unwrap();
    let mut s = stream(list, FUEL);
    assert_eq!(stream_next(&mut arena, &mut s), Ok(StreamItem::Byte(72)));
    assert_eq!(stream_next(&mut arena, &mut s), Ok(StreamItem::TooLarge(300)));
    assert_eq!(stream_next(&mut arena, &mut s), Ok(StreamItem::Byte(105)));
    assert!(FUEL - 3 * 17 <= s.remaining && s.remaining < FUEL);
    assert_eq!(stream_next(&mut arena, &mut s), Ok(StreamItem::End));
    assert_eq!(stream_next(&mut arena, &mut s), Ok(StreamItem::End));
}

#[test]
fn a_long_stream() {
    let mut arena = Arena::new(16);
    let numbers: Vec<u64> = (0..1500).map(|k| k % 256).collect();
    let list = make_list(&mut arena, &numbers).unwrap();
    let mut s = stream(list, FUEL);
    for n in numbers {
        assert_eq!(
            stream_next(&mut arena, &mut s),
            Ok(StreamItem::Byte(n as u8))
        );
    }
    assert_eq!(stream_next(&mut arena, &mut s), Ok(StreamItem::End));
}

#[test]
fn streams_without_numbers_or_fuel() {
    let mut arena = Arena::new(16);
    let s = arena.allocate(S, NIL, NIL).unwrap();
    let nil = make_false(&mut arena).unwrap();
    let list = make_pair(&mut arena, s, nil).unwrap();
    let mut st = stream(list, FUEL);
    assert_eq!(stream_next(&mut arena, &mut st), Ok(StreamItem::NoNumber));
    let mut dry = stream(list, 0);
    assert_eq!(stream_next(&mut arena, &mut dry), Ok(StreamItem::Exhausted));
}

#[test]
fn a_reading_that_runs_out_of_fuel() {
    let mut arena = Arena::new(16);
    // I T F gives its marker too early, when the fuel ends just there.
    let i = arena.intern_i().unwrap();
    assert_eq!(decode_bool(&mut arena, i, 1).unwrap(), Some(true));
    assert_eq!(decode_bool(&mut arena, i, 2).unwrap(), None);
}

#[test]
fn numbers_under_functions() {
    let mut arena = Arena::new(16);
    let n = make_scott_num(&mut arena, 9).unwrap();
    let i = arena.intern_i().unwrap();
    let app = arena.allocate(APP, i, n).unwrap();
    assert_eq!(
        ski_eval::decode::decode_scott_num(&mut arena, app, FUEL).unwrap(),
        Some(9)
    );
}

#[test]
fn the_parts_of_a_pair_are_its_nodes() {
    let mut arena = Arena::new(16);
    let a = arena.allocate(S, NIL, NIL).unwrap();
    let b = make_true(&mut arena).unwrap();
    let p = make_pair(&mut arena, a, b).unwrap();
    for _ in 0..3 {
        let mut fuel = 100;
        let x = pair_fst(&mut arena, p, &mut fuel).unwrap();
        assert_eq!(x, arena.follow(a));
        assert!(fuel < 100);
        let mut fuel = 100;
        let y = pair_snd(&mut arena, p, &mut fuel).unwrap();
        assert_eq!(y, arena.follow(b));
        assert!(fuel < 100);
    }
    let k = arena.intern_k().unwrap();
    let p = make_pair(&mut arena, k, k).unwrap();
    let mut fuel = 100;
    assert_eq!(pair_fst(&mut arena, p, &mut fuel), Ok(k));
    assert_eq!(pair_snd(&mut arena, p, &mut fuel), Ok(k));
}

#[test]
fn how_a_string_was_read() {
    let mut arena = Arena::new(16);
    let list = make_list(&mut arena, &vec![33, 0xd800, 0x11_0000, 72, 72, 72]).unwrap();
    let nil = make_false(&mut arena).unwrap();
    let list = make_pair(&mut arena, nil, list).unwrap();
    let reading = read_string(&mut arena, list, FUEL).unwrap();
    assert_eq!(reading.text, "HHH??!\u{0}");
    assert_eq!(reading.notes.len(), 7);
    assert_eq!(reading.notes[1].number, Some(33));
    assert_eq!(reading.notes[1].code, Some(33));
    assert_eq!(reading.notes[0].code, Some(0));
    assert!(reading.notes[4].text.is_some());
    assert!(reading.notes[5].text.is_none());
    assert!(in_code_range(0x10_ffff) && in_code_range(0));
    assert!(!in_code_range(0x11_0000) && !in_code_range(-1));
}
