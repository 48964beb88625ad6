use ski_eval::arena::Arena;
use ski_eval::church::decode_church_num;
use ski_eval::decode::{decode_bool_list, decode_number_list, decode_scott_num};
use ski_eval::encode::{make_false, make_pair, make_scott_num, make_true};
use ski_eval::image::render_quadtree_v2;
use ski_eval::integer::decode_integer;
use ski_eval::node::{APP, I, K, K1, NIL, S, S2};
use ski_eval::select::decode_bool;
use ski_eval::shared::render_shared;
use ski_eval::stream::{stream, stream_next, StreamItem};
use ski_eval::tree::collect_bool_leaves;
use ski_eval::value::{list_end, part_next, read_parts, walk_next, PartItem, Value, WalkItem};
use ski_eval::zoom::{probe_all, zoom_in, zoom_start};

const FUEL: u64 = 100_000_000;

/// `S K K (K n n)`: reduces to `n`.
fn busy(arena: &mut Arena, n: u32) -> u32 {
    let s = arena.allocate(S, NIL, NIL).unwrap();
    let k = arena.allocate(K, NIL, NIL).unwrap();
    let sk = arena.allocate(APP, s, k).unwrap();
    let skk = arena.allocate(APP, sk, k).unwrap();
    let kn = arena.allocate(APP, k, n).unwrap();
    let knn = arena.allocate(APP, kn, n).unwrap();
    arena.allocate(APP, skk, knn).unwrap()
}

fn busy_bool(arena: &mut Arena, b: bool) -> u32 {
    let n = if b {
        make_true(arena).unwrap()
    } else {
        make_false(arena).unwrap()
    };
    busy(arena, n)
}

fn busy_number(arena: &mut Arena, n: u64) -> u32 {
    if n == 0 {
        let zero = make_scott_num(arena, 0).unwrap();
        return busy(arena, zero);
    }
    let bit = busy_bool(arena, n % 2 == 1);
    let rest = if n / 2 == 0 {
        busy_bool(arena, false)
    } else {
        busy_number(arena, n / 2)
    };
    let pair = make_pair(arena, bit, rest).unwrap();
    busy(arena, pair)
}

fn busy_numbers(arena: &mut Arena, ns: &[u64]) -> u32 {
    let mut node = busy_bool(arena, false);
    for &n in ns.iter().rev() {
        let head = busy_number(arena, n);
        let pair = make_pair(arena, head, node).unwrap();
        node = busy(arena, pair);
    }
    node
}

fn busy_bools(arena: &mut Arena, bs: &[bool]) -> u32 {
    let mut node = busy_bool(arena, false);
    for &b in bs.iter().rev() {
        let head = busy_bool(arena, b);
        let pair = make_pair(arena, head, node).unwrap();
        node = busy(arena, pair);
    }
    node
}

/// `S (S I (K a)) (K b)`
fn one_argument_pair(arena: &mut Arena, a: u32, b: u32) -> u32 {
    let i = arena.allocate(I, NIL, NIL).unwrap();
    let ka = arena.allocate(K1, a, NIL).unwrap();
    let kb = arena.allocate(K1, b, NIL).unwrap();
    let inner = arena.allocate(S2, i, ka).unwrap();
    arena.allocate(S2, inner, kb).unwrap()
}

#[test]
fn computed_booleans_and_numbers() {
    let mut arena = Arena::new(16);
    for b in [true, false] {
        let n = busy_bool(&mut arena, b);
        let n = busy(&mut arena, n);
        assert_eq!(decode_bool(&mut arena, n, 100), Ok(Some(b)));
    }
    for n in [0, 1, 6, 255, u64::MAX] {
        let node = busy_number(&mut arena, n);
        assert_eq!(decode_scott_num(&mut arena, node, FUEL), Ok(Some(n)));
    }
    let i = arena.allocate(I, NIL, NIL).unwrap();
    let one = busy(&mut arena, i);
    assert_eq!(decode_church_num(&mut arena, one, FUEL), Ok(Some(1)));
}

#[test]
fn computed_lists() {
    let mut arena = Arena::new(16);
    let list = busy_numbers(&mut arena, &[7, 0, 300]);
    let mut copy = arena.copy();
    assert_eq!(
        decode_number_list(&mut copy, list, FUEL, 100).unwrap(),
        vec![7, 0, 300]
    );
    let bits = busy_bools(&mut arena, &[true, false, true]);
    let mut copy = arena.copy();
    assert_eq!(
        decode_bool_list(&mut copy, bits, FUEL, 100).unwrap(),
        vec![true, false, true]
    );
    assert_eq!(decode_integer(&mut arena, bits, FUEL), Ok(Some(-3)));
}

#[test]
fn a_computed_stream() {
    let mut arena = Arena::new(16);
    let list = busy_numbers(&mut arena, &[72, 105]);
    let mut s = stream(list, FUEL);
    let mut bytes = Vec::new();
    for _ in 0..3 {
        if let StreamItem::Byte(b) = stream_next(&mut arena, &mut s).unwrap() {
            bytes.push(b);
        }
    }
    assert_eq!(bytes, vec![72, 105]);
}

#[test]
fn leaves_of_a_computed_tree() {
    let mut arena = Arena::new(16);
    let t = busy_bool(&mut arena, true);
    let f = busy_bool(&mut arena, false);
    let left = make_pair(&mut arena, t, f).unwrap();
    let left = busy(&mut arena, left);
    let top = make_pair(&mut arena, left, t).unwrap();
    let top = busy(&mut arena, top);
    let mut fuel = FUEL;
    let mut leaves = Vec::new();
    collect_bool_leaves(&mut arena, top, &mut fuel, &mut leaves, 100).unwrap();
    assert_eq!(leaves, vec![1, 0, 1]);
}

#[test]
fn a_computed_picture() {
    let mut arena = Arena::new(16);
    let t = busy_bool(&mut arena, true);
    let f = busy_bool(&mut arena, false);
    let top = make_pair(&mut arena, t, f).unwrap();
    let top = busy(&mut arena, top);
    let bottom = make_pair(&mut arena, f, t).unwrap();
    let bottom = busy(&mut arena, bottom);
    let tree = make_pair(&mut arena, top, bottom).unwrap();
    let tree = busy(&mut arena, tree);
    let mut pixels = vec![50u8; 4];
    let mut fuel = FUEL;
    let mut count = 0;
    render_quadtree_v2(&mut arena, tree, &mut pixels, 0, 0, 2, 2, &mut fuel, &mut count).unwrap();
    assert_eq!(pixels, vec![0, 255, 255, 0]);
    assert_eq!(count, 4);
}

/// A computed tree of colors whose fields are computed too.
fn busy_scene(
    arena: &mut Arena,
    depth: usize,
    row: usize,
    col: usize,
    at: &dyn Fn(usize, usize) -> bool,
) -> u32 {
    let mut fields = vec![busy_bool(arena, depth == 0 && at(row, col))];
    if depth == 0 {
        let none = make_false(arena).unwrap();
        fields.extend([none, none, none, none]);
    } else {
        let half = 1 << (depth - 1);
        for (r, c) in [(0, 0), (0, half), (half, 0), (half, half)] {
            fields.push(busy_scene(arena, depth - 1, row + r, col + c, at));
        }
    }
    let mut node = arena.allocate(I, NIL, NIL).unwrap();
    for f in fields {
        let k = arena.allocate(K1, f, NIL).unwrap();
        node = arena.allocate(S2, node, k).unwrap();
    }
    busy(arena, node)
}

#[test]
fn a_computed_scene() {
    let at = |r: usize, c: usize| (r * 3 + c) % 5 < 2;
    let mut arena = Arena::new(16);
    let data = busy_scene(&mut arena, 4, 0, 0, &at);
    let mut z = zoom_start(&mut arena, data, vec![], 1_000_000).unwrap();
    zoom_in(&mut arena, &mut z).unwrap();
    let d = render_shared(&mut arena, &mut z, 8, 1_000_000, 0).unwrap();
    let mut expected = Vec::new();
    for r in 0..8 {
        for c in 0..8 {
            expected.push(if at(r + 4, c + 4) { 255 } else { 0 });
        }
    }
    assert_eq!(d.pixels, expected);
    zoom_in(&mut arena, &mut z).unwrap();
    zoom_in(&mut arena, &mut z).unwrap();
    let colors = probe_all(&mut arena, &mut z).unwrap().colors;
    assert_eq!(
        colors,
        vec![Some(at(7, 7)), Some(at(7, 8)), Some(at(8, 7)), Some(at(8, 8))]
    );
}

#[test]
fn the_way_along_a_list() {
    let mut arena = Arena::new(16);
    let number = make_scott_num(&mut arena, 9).unwrap();
    let yes = make_true(&mut arena).unwrap();
    let nil = make_false(&mut arena).unwrap();
    let item = one_argument_pair(&mut arena, number, yes);
    let list = one_argument_pair(&mut arena, item, nil);
    let list = busy(&mut arena, list);
    let mut fuel = FUEL;
    let (head, tail) = match walk_next(&mut arena, list, &mut fuel).unwrap() {
        WalkItem::Item { head, tail } => (head, tail),
        WalkItem::End(_) => panic!("the list has an item"),
    };
    assert!(fuel < FUEL);
    assert_eq!(list_end(&mut arena, tail, fuel), Ok(Some(false)));
    let before = fuel;
    assert_eq!(
        walk_next(&mut arena, tail, &mut fuel),
        Ok(WalkItem::End(false))
    );
    assert_eq!(fuel, before);
    assert_eq!(list_end(&mut arena, head, fuel), Ok(None));
    assert_eq!(
        read_parts(&mut arena, head, &mut fuel),
        Ok((Value::Number(9), Value::Boolean(true)))
    );
}

#[test]
fn the_parts_of_an_item() {
    let mut arena = Arena::new(16);
    let number = make_scott_num(&mut arena, 5).unwrap();
    let yes = make_true(&mut arena).unwrap();
    let item = one_argument_pair(&mut arena, number, yes);
    let mut fuel = FUEL;
    let rest = match part_next(&mut arena, item, &mut fuel).unwrap() {
        PartItem::Part { value, rest } => {
            assert_eq!(value, Value::Number(5));
            rest
        }
        PartItem::End(_) => panic!("the item has a part"),
    };
    assert_eq!(
        part_next(&mut arena, rest, &mut fuel),
        Ok(PartItem::End(Value::Boolean(true)))
    );
    assert_eq!(
        part_next(&mut arena, number, &mut fuel),
        Ok(PartItem::End(Value::Number(5)))
    );
}

#[test]
fn a_walk_without_fuel() {
    let mut arena = Arena::new(16);
    let nil = make_false(&mut arena).unwrap();
    let mut fuel = 0;
    assert!(matches!(
        walk_next(&mut arena, nil, &mut fuel),
        Ok(WalkItem::Item { .. })
    ));
    assert_eq!(fuel, 0);
}
