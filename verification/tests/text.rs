use ski_eval::arena::Arena;
use ski_eval::encode::{make_false, make_pair, make_scott_num, make_true};
use ski_eval::node::{APP, I, IND, K, K1, NIL, S, S1, S2};
use ski_eval::text::{deep_decode, describe, to_decimal, to_signed_decimal};

const FUEL: u64 = 100_000_000;

#[test]
fn decimal_notation() {
    assert_eq!(to_decimal(0), "0");
    assert_eq!(to_decimal(7), "7");
    assert_eq!(to_decimal(1234567890), "1234567890");
    assert_eq!(to_decimal(u64::MAX), u64::MAX.to_string());
    assert_eq!(to_signed_decimal(-12), "-12");
    assert_eq!(to_signed_decimal(12), "12");
    assert_eq!(to_signed_decimal(i64::MIN), i64::MIN.to_string());
}

#[test]
fn every_kind_of_node_has_a_text() {
    let mut arena = Arena::new(16);
    let s = arena.allocate(S, NIL, NIL).unwrap();
    let k = arena.allocate(K, NIL, NIL).unwrap();
    let i = arena.allocate(I, NIL, NIL).unwrap();
    let app = arena.allocate(APP, k, i).unwrap();
    let s1 = arena.allocate(S1, k, NIL).unwrap();
    let s2 = arena.allocate(S2, k, i).unwrap();
    let k1 = arena.allocate(K1, s, NIL).unwrap();
    let ind = arena.allocate(IND, app, NIL).unwrap();
    let marker = arena.allocate(110, NIL, NIL).unwrap();
    assert_eq!(describe(&arena, s, 0), "S");
    assert_eq!(describe(&arena, app, 0), "(K I)");
    assert_eq!(describe(&arena, s1, 0), "(S K)");
    assert_eq!(describe(&arena, s2, 0), "(S K I)");
    assert_eq!(describe(&arena, k1, 0), "(K S)");
    assert_eq!(describe(&arena, ind, 0), "(K I)");
    assert_eq!(describe(&arena, marker, 0), "?110");
}

#[test]
fn deep_expressions_are_cut() {
    let mut arena = Arena::new(16);
    let mut node = arena.allocate(I, NIL, NIL).unwrap();
    for _ in 0..9 {
        node = arena.allocate(K1, node, NIL).unwrap();
    }
    assert_eq!(
        describe(&arena, node, 0),
        "(K (K (K (K (K (K (K (K (K ...)))))))))"
    );
    assert_eq!(describe(&arena, node, 8), "(K ...)");
    assert_eq!(describe(&arena, node, 9), "...");
}

#[test]
fn nested_pairs_line_by_line() {
    let mut arena = Arena::new(16);
    let t = make_true(&mut arena).unwrap();
    let f = make_false(&mut arena).unwrap();
    let inner = make_pair(&mut arena, f, f).unwrap();
    let tree = make_pair(&mut arena, inner, t).unwrap();
    let mut lines = Vec::new();
    deep_decode(&mut arena, inner, FUEL, 0, 20, &mut lines).unwrap();
    assert_eq!(lines, vec!["PAIR(", "  FALSE (nil)", ",", "  FALSE (nil)", ")"]);
    let mut lines = Vec::new();
    deep_decode(&mut arena, tree, FUEL, 0, 20, &mut lines).unwrap();
    assert_eq!(
        lines,
        vec![
            "PAIR(",
            "  PAIR(",
            "    FALSE (nil)",
            "  ,",
            "    FALSE (nil)",
            "  )",
            ",",
            "  TRUE",
            ")",
        ]
    );
}

#[test]
fn numbers_are_shown_as_such() {
    let mut arena = Arena::new(16);
    let n = make_scott_num(&mut arena, 42).unwrap();
    let mut lines = Vec::new();
    deep_decode(&mut arena, n, FUEL, 1, 20, &mut lines).unwrap();
    assert_eq!(lines, vec!["  NUMBER(42)"]);
}

#[test]
fn nothing_is_shown_below_the_depth_or_without_fuel() {
    let mut arena = Arena::new(16);
    let t = make_true(&mut arena).unwrap();
    let mut lines = Vec::new();
    deep_decode(&mut arena, t, FUEL, 3, 2, &mut lines).unwrap();
    deep_decode(&mut arena, t, 0, 0, 2, &mut lines).unwrap();
    assert!(lines.is_empty());
}
