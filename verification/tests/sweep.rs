use ski_eval::arena::Arena;
use ski_eval::grid::{leaf_rows, Sample};
use ski_eval::node::{APP, K1, NIL, S2};
use ski_eval::sweep::{rows_differ, sample_text, shortened, sweep, trial_text, Trial};
use ski_eval::value::{second_component, Value};

fn trial(row: u64, col: u64, text: &str) -> Trial {
    Trial {
        row,
        col,
        text: text.to_string(),
    }
}

#[test]
fn texts_are_shortened() {
    assert_eq!(shortened("abcdef", 4), "abcd");
    assert_eq!(shortened("abcd", 4), "abcd");
    assert_eq!(shortened("", 4), "");
    assert_eq!(shortened("あいう", 2), "あい");
}

#[test]
fn values_as_text() {
    let mut arena = Arena::new(16);
    let k = arena.intern_k().unwrap();
    let text = |value| sample_text(&arena, &Sample { node: k, value });
    assert_eq!(text(Value::Number(17)), "17");
    assert_eq!(text(Value::Boolean(true)), "T");
    assert_eq!(text(Value::Boolean(false)), "F");
    assert_eq!(text(Value::Unknown), "?K");
}

#[test]
fn rows_that_differ() {
    let same = vec![
        trial(0, 0, "1"),
        trial(0, 1, "2"),
        trial(1, 0, "1"),
        trial(1, 1, "2"),
    ];
    assert!(!rows_differ(&same));
    let other = vec![
        trial(0, 0, "1"),
        trial(0, 1, "2"),
        trial(1, 0, "1"),
        trial(1, 1, "3"),
    ];
    assert!(rows_differ(&other));
    assert!(!rows_differ(&vec![]));
    assert!(rows_differ(&vec![trial(0, 0, "1")]));
    assert_eq!(trial_text(&other, 1, 1), "3");
    assert_eq!(trial_text(&other, 2, 2), "");
}

#[test]
fn places_within_the_image() {
    let mut arena = Arena::new(16);
    // K K n m z is m.
    let k = arena.intern_k().unwrap();
    let f = arena.allocate(K1, k, NIL).unwrap();
    let small = sweep(&mut arena, f, 2).unwrap();
    assert_eq!(small.len(), 4);
    assert!(rows_differ(&small));
    let places: Vec<(u64, u64)> = small.iter().map(|t| (t.row, t.col)).collect();
    assert_eq!(places, vec![(0, 0), (0, 1), (1, 0), (1, 1)]);
    let texts: Vec<&str> = small.iter().map(|t| t.text.as_str()).collect();
    assert_eq!(texts, vec!["0", "0", "1", "1"]);
    assert_eq!(sweep(&mut arena, f, 3).unwrap().len(), 8);
    assert_eq!(sweep(&mut arena, f, 0).unwrap().len(), 0);
}

#[test]
fn components_of_a_value() {
    let mut arena = Arena::new(16);
    let k = arena.intern_k().unwrap();
    let i = arena.intern_i().unwrap();
    let s2 = arena.allocate(S2, k, i).unwrap();
    let app = arena.allocate(APP, i, k).unwrap();
    assert_eq!(second_component(&arena, s2), Some(i));
    assert_eq!(second_component(&arena, app), Some(k));
    assert_eq!(second_component(&arena, k), None);
}

#[test]
fn rows_that_leaves_fill() {
    assert_eq!(leaf_rows(99, 4), None);
    assert_eq!(leaf_rows(100, 128), None);
    assert_eq!(leaf_rows(1279, 128), None);
    assert_eq!(leaf_rows(1280, 128), Some(10));
    assert_eq!(leaf_rows(1407, 128), Some(10));
}
