use ski_eval::arena::Arena;
use ski_eval::encode::{make_false, make_pair, make_true};
use ski_eval::image::{color_of, fill_rect, render_diamond, render_quadtree_v2};

const FUEL: u64 = 1_000_000;

fn nested(arena: &mut Arena, tl: u32, tr: u32, bl: u32, br: u32) -> u32 {
    let top = make_pair(arena, tl, tr).unwrap();
    let bottom = make_pair(arena, bl, br).unwrap();
    make_pair(arena, top, bottom).unwrap()
}

fn diamond(arena: &mut Arena, cond: u32, tl: u32, tr: u32, bl: u32, br: u32) -> u32 {
    let p1 = make_pair(arena, bl, br).unwrap();
    let p2 = make_pair(arena, tr, p1).unwrap();
    let p3 = make_pair(arena, tl, p2).unwrap();
    make_pair(arena, cond, p3).unwrap()
}

#[test]
fn colors_of_booleans() {
    assert_eq!(color_of(Some(true)), 0);
    assert_eq!(color_of(Some(false)), 255);
    assert_eq!(color_of(None), 128);
}

#[test]
fn squares_are_clipped() {
    let mut pixels = vec![0u8; 9];
    fill_rect(&mut pixels, 1, 1, 5, 7, 3);
    assert_eq!(pixels, vec![0, 0, 0, 0, 7, 7, 0, 7, 7]);
    fill_rect(&mut pixels, 0, 0, 1, 9, 3);
    assert_eq!(pixels[0], 9);
    assert_eq!(pixels[1], 0);
    fill_rect(&mut pixels, 0, 0, 0, 5, 3);
    assert_eq!(pixels[0], 9);
}

#[test]
fn a_leaf_fills_the_image() {
    let mut arena = Arena::new(16);
    let t = make_true(&mut arena).unwrap();
    let mut pixels = vec![50u8; 16];
    let mut fuel = FUEL;
    let mut count = 0;
    render_quadtree_v2(&mut arena, t, &mut pixels, 0, 0, 4, 4, &mut fuel, &mut count).unwrap();
    assert_eq!(pixels, vec![0u8; 16]);
    assert_eq!(count, 16);
    assert_eq!(fuel, FUEL);
}

#[test]
fn nested_quarters() {
    let mut arena = Arena::new(16);
    let t = make_true(&mut arena).unwrap();
    let f = make_false(&mut arena).unwrap();
    let inner = nested(&mut arena, t, f, f, t);
    let tree = nested(&mut arena, inner, f, t, f);
    let mut pixels = vec![50u8; 16];
    let mut fuel = FUEL;
    let mut count = 0;
    render_quadtree_v2(&mut arena, tree, &mut pixels, 0, 0, 4, 4, &mut fuel, &mut count).unwrap();
    let w = 255;
    assert_eq!(pixels, vec![0, w, w, w, w, 0, w, w, 0, 0, w, w, 0, 0, w, w]);
    assert_eq!(count, 16);
}

#[test]
fn a_tree_below_the_pixels_is_gray() {
    let mut arena = Arena::new(16);
    let t = make_true(&mut arena).unwrap();
    let f = make_false(&mut arena).unwrap();
    let tree = nested(&mut arena, t, f, f, t);
    let mut pixels = vec![50u8; 1];
    let mut fuel = FUEL;
    let mut count = 0;
    render_quadtree_v2(&mut arena, tree, &mut pixels, 0, 0, 1, 1, &mut fuel, &mut count).unwrap();
    assert_eq!(pixels, vec![128]);
    assert_eq!(count, 1);
}

#[test]
fn diamond_quarters() {
    let mut arena = Arena::new(16);
    let t = make_true(&mut arena).unwrap();
    let f = make_false(&mut arena).unwrap();
    let tree = diamond(&mut arena, f, t, f, f, t);
    let mut pixels = vec![50u8; 4];
    let mut fuel = FUEL;
    let mut count = 0;
    render_diamond(&mut arena, tree, &mut pixels, 0, 0, 2, 2, &mut fuel, &mut count).unwrap();
    assert_eq!(pixels, vec![0, 255, 255, 0]);
    assert_eq!(count, 4);
    let mut one = vec![50u8; 1];
    render_diamond(&mut arena, tree, &mut one, 0, 0, 1, 1, &mut fuel, &mut count).unwrap();
    assert_eq!(one, vec![255]);
}

#[test]
fn pixels_outside_the_square_stay() {
    let mut arena = Arena::new(16);
    let t = make_true(&mut arena).unwrap();
    let f = make_false(&mut arena).unwrap();
    let tree = diamond(&mut arena, f, t, t, t, t);
    let mut pixels = vec![50u8; 9];
    let mut fuel = FUEL;
    let mut count = 0;
    render_diamond(&mut arena, tree, &mut pixels, 1, 1, 2, 3, &mut fuel, &mut count).unwrap();
    assert_eq!(pixels, vec![50, 50, 50, 50, 0, 0, 50, 0, 0]);
    assert_eq!(count, 4);
}

#[test]
fn nothing_is_drawn_without_fuel() {
    let mut arena = Arena::new(16);
    let t = make_true(&mut arena).unwrap();
    let mut pixels = vec![50u8; 4];
    let mut fuel = 0;
    let mut count = 0;
    render_diamond(&mut arena, t, &mut pixels, 0, 0, 2, 2, &mut fuel, &mut count).unwrap();
    assert_eq!(pixels, vec![50u8; 4]);
    assert_eq!(count, 0);
}

#[test]
fn image_files() {
    assert_eq!(
        ski_eval::pgm::pgm(2, 10, &vec![0, 255]),
        b"P5\n2 10\n255\n\x00\xff".to_vec()
    );
    assert_eq!(
        ski_eval::pgm::pgm(0, 1234, &vec![]),
        b"P5\n0 1234\n255\n".to_vec()
    );
}
