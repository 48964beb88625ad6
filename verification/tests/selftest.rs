use ski_eval::arena::Arena;
use ski_eval::decode::decode_scott_num;
use ski_eval::encode::{make_false, make_pair, make_scott_num, make_true};
use ski_eval::node::{APP, I, K1, MARKER_F, MARKER_T, NIL, S, S2};
use ski_eval::parse::parse_compact;
use ski_eval::select::{decode_bool, pair_fst, pair_snd};
use ski_eval::zoom::build_diamond_sel;

const FUEL: u64 = 1_000_000;

fn markers(arena: &mut Arena) -> (u32, u32) {
    let x = arena.allocate(MARKER_T, NIL, NIL).unwrap();
    let y = arena.allocate(MARKER_F, NIL, NIL).unwrap();
    (x, y)
}

#[test]
fn true_picks_the_first_argument() {
    let mut arena = Arena::new(16);
    let t = make_true(&mut arena).unwrap();
    let (x, y) = markers(&mut arena);
    let app1 = arena.allocate(APP, t, x).unwrap();
    let app2 = arena.allocate(APP, app1, y).unwrap();
    let mut fuel = FUEL;
    arena.whnf(app2, &mut fuel).unwrap();
    let r = arena.follow(app2);
    assert_eq!(arena.node(r).tag, 100);
    assert_eq!(FUEL - fuel, 4);
}

#[test]
fn false_picks_the_second_argument() {
    let mut arena = Arena::new(16);
    let f = make_false(&mut arena).unwrap();
    let (x, y) = markers(&mut arena);
    let app1 = arena.allocate(APP, f, x).unwrap();
    let app2 = arena.allocate(APP, app1, y).unwrap();
    let mut fuel = FUEL;
    arena.whnf(app2, &mut fuel).unwrap();
    let r = arena.follow(app2);
    assert_eq!(arena.node(r).tag, 101);
    assert_eq!(FUEL - fuel, 2);
}

#[test]
fn first_part_of_a_pair() {
    let mut arena = Arena::new(16);
    let (a, b) = markers(&mut arena);
    let p = make_pair(&mut arena, a, b).unwrap();
    let mut fuel = FUEL;
    let fst = pair_fst(&mut arena, p, &mut fuel).unwrap();
    assert_eq!(arena.node(fst).tag, 100);
    assert_eq!(fst, a);
    assert_eq!(FUEL - fuel, 8);
}

#[test]
fn second_part_of_a_pair() {
    let mut arena = Arena::new(16);
    let (a, b) = markers(&mut arena);
    let p = make_pair(&mut arena, a, b).unwrap();
    let mut fuel = FUEL;
    let snd = pair_snd(&mut arena, p, &mut fuel).unwrap();
    assert_eq!(arena.node(snd).tag, 101);
    assert_eq!(snd, b);
    assert_eq!(FUEL - fuel, 9);
}

#[test]
fn booleans_round_trip() {
    let mut arena = Arena::new(16);
    let t = make_true(&mut arena).unwrap();
    assert_eq!(decode_bool(&mut arena, t, FUEL).unwrap(), Some(true));
    let f = make_false(&mut arena).unwrap();
    assert_eq!(decode_bool(&mut arena, f, FUEL).unwrap(), Some(false));
}

#[test]
fn a_pair_is_no_boolean() {
    let mut arena = Arena::new(16);
    let t = make_true(&mut arena).unwrap();
    let f = make_false(&mut arena).unwrap();
    let p = make_pair(&mut arena, t, f).unwrap();
    assert_eq!(decode_bool(&mut arena, p, FUEL).unwrap(), None);
}

#[test]
fn small_numbers_round_trip() {
    let mut arena = Arena::new(16);
    for n in 0..=15u64 {
        let node = make_scott_num(&mut arena, n).unwrap();
        assert_eq!(decode_scott_num(&mut arena, node, FUEL).unwrap(), Some(n));
    }
}

#[test]
fn compact_form_of_three() {
    let mut arena = Arena::new(16);
    let text = "kXX--kkD-XkXX--D----XkXX--kkD-XkXX--D----XkXX--kkD-XXD----XXD----------";
    let node = parse_compact(&mut arena, text.as_bytes()).unwrap();
    assert_eq!(decode_scott_num(&mut arena, node, FUEL).unwrap(), Some(3));
}

#[test]
fn large_numbers_round_trip() {
    let mut arena = Arena::new(16);
    for n in [100u64, 255, 1000, 65535] {
        let node = make_scott_num(&mut arena, n).unwrap();
        assert_eq!(
            decode_scott_num(&mut arena, node, 10_000_000).unwrap(),
            Some(n)
        );
    }
}

#[test]
fn the_largest_number_round_trips() {
    let mut arena = Arena::new(16);
    let node = make_scott_num(&mut arena, u64::MAX).unwrap();
    assert_eq!(
        decode_scott_num(&mut arena, node, 10_000_000).unwrap(),
        Some(u64::MAX)
    );
}

#[test]
fn a_number_needs_its_fuel() {
    let mut arena = Arena::new(16);
    let zero = make_scott_num(&mut arena, 0).unwrap();
    assert_eq!(decode_scott_num(&mut arena, zero, 0).unwrap(), Some(0));
    let five = make_scott_num(&mut arena, 5).unwrap();
    assert_eq!(decode_scott_num(&mut arena, five, 39_999).unwrap(), None);
    assert_eq!(decode_scott_num(&mut arena, five, 40_034).unwrap(), Some(5));
}

#[test]
fn a_combinator_is_no_number() {
    let mut arena = Arena::new(16);
    let s = arena.allocate(S, NIL, NIL).unwrap();
    assert_eq!(decode_scott_num(&mut arena, s, FUEL).unwrap(), None);
}

#[test]
fn parts_of_a_list() {
    let mut arena = Arena::new(16);
    let t = make_true(&mut arena).unwrap();
    let nil = make_false(&mut arena).unwrap();
    let list1 = make_pair(&mut arena, nil, t).unwrap();
    let mut f1 = FUEL;
    let snd1 = pair_snd(&mut arena, list1, &mut f1).unwrap();
    assert_eq!(decode_bool(&mut arena, snd1, FUEL).unwrap(), Some(true));
    let mut f2 = FUEL;
    let fst1 = pair_fst(&mut arena, list1, &mut f2).unwrap();
    assert_eq!(decode_bool(&mut arena, fst1, FUEL).unwrap(), Some(false));
    let false2 = make_false(&mut arena).unwrap();
    let list2 = make_pair(&mut arena, list1, false2).unwrap();
    let mut f3 = FUEL;
    let snd2 = pair_snd(&mut arena, list2, &mut f3).unwrap();
    assert_eq!(decode_bool(&mut arena, snd2, FUEL).unwrap(), Some(false));
    let mut f4 = FUEL;
    let fst2 = pair_fst(&mut arena, list2, &mut f4).unwrap();
    let mut f5 = FUEL;
    let inner = pair_snd(&mut arena, fst2, &mut f5).unwrap();
    assert_eq!(decode_bool(&mut arena, inner, FUEL).unwrap(), Some(true));
}

#[test]
fn selectors_pick_their_field() {
    let mut arena = Arena::new(16);
    let t = make_true(&mut arena).unwrap();
    let f = make_false(&mut arena).unwrap();
    let mut tuple = arena.allocate(I, NIL, NIL).unwrap();
    for k in 0..5 {
        let field = if k % 2 == 0 { t } else { f };
        let constant = arena.allocate(K1, field, NIL).unwrap();
        tuple = arena.allocate(S2, tuple, constant).unwrap();
    }
    for pos in 0..5usize {
        let sel = build_diamond_sel(&mut arena, pos).unwrap();
        let app = arena.allocate(APP, tuple, sel).unwrap();
        let mut fuel = FUEL;
        let r = arena.eval(app, &mut fuel).unwrap();
        assert_eq!(FUEL - fuel, 20 - 2 * pos as u64);
        assert_eq!(
            decode_bool(&mut arena, r, 500_000).unwrap(),
            Some(pos % 2 == 0)
        );
    }
}
