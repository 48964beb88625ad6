use ski_eval::arena::Arena;
use ski_eval::encode::{make_false, make_true};
use ski_eval::node::{I, K1, NIL, S2};
use ski_eval::shared::render_shared;
use ski_eval::zoom::{
    calc_gc_min_free, gc_zoom_roots, get_bool_fn, get_child_fn, maybe_gc_zoom, probe_all, visit,
    zoom_in, zoom_start, Visit, CHILD_FUEL, PROBE_FUEL,
};

fn tuple(arena: &mut Arena, fields: &[u32]) -> u32 {
    let mut node = arena.allocate(I, NIL, NIL).unwrap();
    for &f in fields {
        let k = arena.allocate(K1, f, NIL).unwrap();
        node = arena.allocate(S2, node, k).unwrap();
    }
    node
}

fn color(arena: &mut Arena, b: bool) -> u32 {
    if b {
        make_true(arena).unwrap()
    } else {
        make_false(arena).unwrap()
    }
}

fn flat(arena: &mut Arena, b: bool) -> u32 {
    let c = color(arena, b);
    let n = make_false(arena).unwrap();
    tuple(arena, &[c, n, n, n, n])
}

/// A tree of the given depth whose pixels are given by row and column.
fn scene(
    arena: &mut Arena,
    depth: usize,
    row: usize,
    col: usize,
    at: &dyn Fn(usize, usize) -> bool,
) -> u32 {
    if depth == 0 {
        return flat(arena, at(row, col));
    }
    let half = 1 << (depth - 1);
    let c = color(arena, false);
    let tl = scene(arena, depth - 1, row, col, at);
    let tr = scene(arena, depth - 1, row, col + half, at);
    let bl = scene(arena, depth - 1, row + half, col, at);
    let br = scene(arena, depth - 1, row + half, col + half, at);
    tuple(arena, &[c, tl, tr, bl, br])
}

fn expected(size: usize, at: &dyn Fn(usize, usize) -> bool) -> Vec<u8> {
    let mut v = Vec::new();
    for r in 0..size {
        for c in 0..size {
            v.push(if at(r, c) { 255 } else { 0 });
        }
    }
    v
}

#[test]
fn how_many_nodes_should_be_free() {
    assert_eq!(calc_gc_min_free(0, 0), 5_000_000);
    assert_eq!(calc_gc_min_free(10, 5), 5_000_000);
    assert_eq!(calc_gc_min_free(0, 30_000_000), 10_000_000);
    assert_eq!(calc_gc_min_free(0, 1_000_000_000), 60_000_000);
}

#[test]
fn quarters_are_drawn() {
    let at = |r: usize, c: usize| (r * 3 + c * 5) % 4 == 1;
    let mut arena = Arena::new(16);
    let data = scene(&mut arena, 3, 0, 0, &at);
    let mut z = zoom_start(&mut arena, data, vec![], 1_000_000).unwrap();
    let d = render_shared(&mut arena, &mut z, 8, 1_000_000, 0).unwrap();
    assert_eq!(d.pixels, expected(8, &at));
    assert_eq!(d.rows.len(), 8);
    assert!(d.rows.iter().all(|r| r.gc.is_none()));
}

#[test]
fn collections_do_not_change_the_image() {
    let at = |r: usize, c: usize| (r ^ c) % 3 == 1;
    let mut arena = Arena::new(16);
    let data = scene(&mut arena, 2, 0, 0, &at);
    let mut z = zoom_start(&mut arena, data, vec![], 1_000_000).unwrap();
    let d = render_shared(&mut arena, &mut z, 4, 1_000_000, usize::MAX).unwrap();
    assert_eq!(d.pixels, expected(4, &at));
    for r in &d.rows {
        let gc = r.gc.unwrap();
        assert_eq!(gc.total, gc.live + gc.freed);
        assert!(gc.freed > 0);
    }
}

#[test]
fn a_pixel_without_fuel_is_gray() {
    let at = |_: usize, _: usize| true;
    let mut arena = Arena::new(16);
    let data = scene(&mut arena, 2, 0, 0, &at);
    let mut z = zoom_start(&mut arena, data, vec![], 1_000_000).unwrap();
    let d = render_shared(&mut arena, &mut z, 4, 5, 0).unwrap();
    assert_eq!(d.pixels, vec![128u8; 16]);
}

#[test]
fn zooming_goes_to_the_center() {
    let at = |r: usize, c: usize| (r * 7 + c) % 5 < 2;
    let mut arena = Arena::new(16);
    let data = scene(&mut arena, 4, 0, 0, &at);
    let mut z = zoom_start(&mut arena, data, vec![data], 1_000_000).unwrap();
    let report = zoom_in(&mut arena, &mut z).unwrap();
    assert!(report.before.is_some());
    assert!(report.between.is_some());
    let d = render_shared(&mut arena, &mut z, 8, 1_000_000, 0).unwrap();
    let center = |r: usize, c: usize| at(r + 4, c + 4);
    assert_eq!(d.pixels, expected(8, &center));
    assert_eq!(z.keep, vec![data]);
}

#[test]
fn colors_of_the_quarters() {
    let mut arena = Arena::new(16);
    let a = flat(&mut arena, true);
    let b = flat(&mut arena, false);
    let c = color(&mut arena, true);
    let data = tuple(&mut arena, &[c, a, b, b, a]);
    let mut z = zoom_start(&mut arena, data, vec![], 1_000_000).unwrap();
    let p = probe_all(&mut arena, &mut z).unwrap();
    assert_eq!(
        p.colors,
        vec![Some(true), Some(false), Some(false), Some(true)]
    );
    assert_eq!(p.reports.len(), 4);
}

#[test]
fn what_is_known_is_not_evaluated_again() {
    let mut arena = Arena::new(16);
    let a = flat(&mut arena, true);
    let b = flat(&mut arena, false);
    let c = color(&mut arena, true);
    let data = tuple(&mut arena, &[c, a, b, b, a]);
    let mut z = zoom_start(&mut arena, data, vec![data], 1_000_000).unwrap();
    let len = arena.len();
    assert_eq!(
        get_child_fn(&mut arena, &mut z, data, 1, CHILD_FUEL),
        Ok(a)
    );
    assert_eq!(
        get_child_fn(&mut arena, &mut z, data, 2, CHILD_FUEL),
        Ok(b)
    );
    assert_eq!(arena.len(), len);
    assert_eq!(
        get_bool_fn(&mut arena, &mut z, data, PROBE_FUEL),
        Ok(Some(true))
    );
    let len = arena.len();
    assert_eq!(
        get_bool_fn(&mut arena, &mut z, data, PROBE_FUEL),
        Ok(Some(true))
    );
    assert_eq!(arena.len(), len);
}

#[test]
fn collection_keeps_the_place() {
    let mut arena = Arena::new(16);
    let at = |r: usize, c: usize| r == c;
    let data = scene(&mut arena, 1, 0, 0, &at);
    let mut z = zoom_start(&mut arena, data, vec![], 1_000_000).unwrap();
    let first = gc_zoom_roots(&mut arena, &z);
    assert_eq!(first.total, arena.len());
    assert_eq!(first.freed, arena.free_len());
    let again = maybe_gc_zoom(&mut arena, &mut z).unwrap();
    assert!(again.freed >= first.freed);
    assert_eq!(z.quarters.len(), 0);
    let d = render_shared(&mut arena, &mut z, 2, 1_000_000, 0).unwrap();
    assert_eq!(d.pixels, vec![255, 0, 0, 255]);
}

#[test]
fn the_way_into_an_image() {
    let way: Vec<Visit> = (0..26).map(visit).collect();
    let mut expected: Vec<Visit> = (1..=7).map(Visit::Unseen).collect();
    expected.push(Visit::Clear);
    expected.extend((9..=25).map(Visit::Draw));
    expected.push(Visit::Done);
    assert_eq!(way, expected);
}
