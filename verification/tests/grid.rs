use ski_eval::arena::Arena;
use ski_eval::encode::make_scott_num;
use ski_eval::grid::{
    blank_grid, count_color, leaf_pixels, max_value, normalize, render_row, sample, value_pixel,
    Budget, Unwrap,
};
use ski_eval::node::{APP, K, K1, NIL, S, S2};
use ski_eval::value::{bool_or_number, call, number_or_bool, unwrap_constants, Value};

const BUDGET: Budget = Budget {
    call: 10_000_000,
    number: 1_000_000,
    boolean: 500_000,
};

/// `K K`: of three arguments, `K K n m z` is `m`.
fn second(arena: &mut Arena) -> u32 {
    let k = arena.intern_k().unwrap();
    arena.allocate(K1, k, NIL).unwrap()
}

#[test]
fn calls_with_numbers() {
    let mut arena = Arena::new(16);
    let k = arena.intern_k().unwrap();
    let mut fuel = 1000;
    let r = call(&mut arena, k, &[6, 9], &mut fuel).unwrap();
    assert_eq!(fuel, 999);
    assert_eq!(
        number_or_bool(&mut arena, r, 1_000_000, 500_000).unwrap(),
        Value::Number(6)
    );
}

#[test]
fn values_as_pixels() {
    assert_eq!(value_pixel(Value::Number(7)), 7);
    assert_eq!(value_pixel(Value::Number(255)), 255);
    assert_eq!(value_pixel(Value::Number(256)), 255);
    assert_eq!(value_pixel(Value::Boolean(true)), 255);
    assert_eq!(value_pixel(Value::Boolean(false)), 0);
    assert_eq!(value_pixel(Value::Unknown), 128);
}

#[test]
fn numbers_and_booleans() {
    let mut arena = Arena::new(16);
    let s = arena.allocate(S, NIL, NIL).unwrap();
    assert_eq!(
        number_or_bool(&mut arena, s, 1_000_000, 500_000).unwrap(),
        Value::Unknown
    );
    assert_eq!(
        bool_or_number(&mut arena, s, 1_000_000).unwrap(),
        Value::Unknown
    );
    let k = arena.intern_k().unwrap();
    assert_eq!(
        bool_or_number(&mut arena, k, 1_000_000).unwrap(),
        Value::Boolean(true)
    );
    let n = make_scott_num(&mut arena, 12).unwrap();
    assert_eq!(
        bool_or_number(&mut arena, n, 1_000_000).unwrap(),
        Value::Number(12)
    );
}

#[test]
fn constants_are_opened() {
    let mut arena = Arena::new(16);
    let s = arena.allocate(S, NIL, NIL).unwrap();
    let k = arena.allocate(K, NIL, NIL).unwrap();
    let k1 = arena.allocate(K1, s, NIL).unwrap();
    let app = arena.allocate(APP, k, k1).unwrap();
    assert_eq!(unwrap_constants(&mut arena, app, false), s);
    let kk = arena.allocate(K1, k, NIL).unwrap();
    let composed = arena.allocate(S2, kk, app).unwrap();
    assert_eq!(unwrap_constants(&mut arena, composed, false), composed);
    assert_eq!(unwrap_constants(&mut arena, composed, true), s);
    let akk = arena.allocate(APP, k, k).unwrap();
    let composed = arena.allocate(S2, akk, s).unwrap();
    assert_eq!(unwrap_constants(&mut arena, composed, true), s);
}

#[test]
fn ten_constants_are_opened() {
    let mut arena = Arena::new(16);
    let s = arena.allocate(S, NIL, NIL).unwrap();
    let mut nodes = vec![s];
    for k in 0..12 {
        let n = arena.allocate(K1, nodes[k], NIL).unwrap();
        nodes.push(n);
    }
    assert_eq!(unwrap_constants(&mut arena, nodes[12], false), nodes[2]);
    assert_eq!(unwrap_constants(&mut arena, nodes[10], false), s);
}

#[test]
fn samples_open_what_they_are_told_to() {
    let mut arena = Arena::new(16);
    let k = arena.intern_k().unwrap();
    // K n is a constant function of n.
    let wrapped = sample(&mut arena, k, &[5], Unwrap::Constants, BUDGET).unwrap();
    assert_eq!(wrapped.value, Value::Number(5));
    let kept = sample(&mut arena, k, &[5], Unwrap::Keep, BUDGET).unwrap();
    assert!(kept.value != Value::Number(5));
}

#[test]
fn rows_of_an_image() {
    let mut arena = Arena::new(16);
    let f = second(&mut arena);
    let mut g = blank_grid(3);
    assert_eq!(g.pixels, vec![128u8; 9]);
    for row in 0..3 {
        assert_eq!(g.row, row);
        render_row(&mut arena, f, 3, Unwrap::Composed, BUDGET, &mut g).unwrap();
    }
    assert_eq!(g.pixels, vec![0, 0, 0, 1, 1, 1, 2, 2, 2]);
    assert_eq!((g.numbers, g.booleans, g.failures), (9, 0, 0));
    assert!(g.examples.is_empty());
}

#[test]
fn pixels_without_a_value() {
    let mut arena = Arena::new(16);
    // A marker that is applied to numbers is neither number nor boolean.
    let f = arena.allocate(120, NIL, NIL).unwrap();
    let mut g = blank_grid(3);
    for _ in 0..3 {
        render_row(&mut arena, f, 3, Unwrap::Composed, BUDGET, &mut g).unwrap();
    }
    assert_eq!(g.pixels, vec![128u8; 9]);
    assert_eq!((g.numbers, g.booleans, g.failures), (0, 0, 9));
    assert_eq!(g.examples.len(), 5);
    assert_eq!((g.examples[4].row, g.examples[4].col), (1, 1));
    assert!(g.examples[0].text.starts_with("(((?120 "));
}

#[test]
fn pixels_are_scaled() {
    assert_eq!(max_value(&vec![3, 128, 9, 0]), 9);
    assert_eq!(max_value(&vec![128, 128]), 1);
    assert_eq!(max_value(&vec![]), 1);
    assert_eq!(normalize(&vec![3, 128, 9, 0], 9), vec![85, 128, 255, 0]);
    assert_eq!(normalize(&vec![200], 100), vec![255]);
}

#[test]
fn colors_are_counted() {
    assert_eq!(count_color(&vec![0, 255, 0, 128], 0), 2);
    assert_eq!(count_color(&vec![0, 255, 0, 128], 7), 0);
}

#[test]
fn leaves_as_pixels() {
    assert_eq!(
        leaf_pixels(&vec![1, 0, 0, 1, 1], 2),
        vec![0, 255, 255, 0]
    );
    assert_eq!(leaf_pixels(&vec![1], 2), Vec::<u8>::new());
}
