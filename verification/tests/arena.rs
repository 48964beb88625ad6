use ski_eval::arena::Arena;
use ski_eval::encode::{make_pair, make_true};
use ski_eval::heap::{AllocError, ARENA_HARD_LIMIT};
use ski_eval::node::{APP, I, IND, K, K1, NIL, S, S1, S2};
use ski_eval::parse::parse_compact;

#[test]
fn an_arena_starts_empty() {
    let arena = Arena::new(100);
    assert_eq!(arena.len(), 0);
    assert_eq!(arena.free_len(), 0);
    assert_eq!(arena.failsafe_limit(), None);
    assert!(!arena.has_checkpoint());
}

#[test]
fn nodes_are_numbered_in_order() {
    let mut arena = Arena::new(4);
    assert_eq!(arena.allocate(K, NIL, NIL), Ok(0));
    assert_eq!(arena.allocate(I, NIL, NIL), Ok(1));
    assert_eq!(arena.allocate(APP, 0, 1), Ok(2));
    let n = arena.node(2);
    assert_eq!((n.tag, n.a, n.b), (APP, 0, 1));
}

#[test]
fn the_failsafe_refuses_nodes() {
    let mut arena = Arena::new(4);
    arena.enable_io_alloc_failsafe(2);
    assert_eq!(arena.failsafe_limit(), Some(2));
    assert_eq!(arena.allocate(K, NIL, NIL), Ok(0));
    assert_eq!(arena.allocate(K, NIL, NIL), Ok(1));
    assert_eq!(arena.allocate(K, NIL, NIL), Err(AllocError::Failsafe));
    assert_eq!(arena.len(), 2);
}

#[test]
fn the_failsafe_has_a_range() {
    let mut arena = Arena::new(4);
    arena.enable_io_alloc_failsafe(0);
    assert_eq!(arena.failsafe_limit(), Some(1));
    arena.enable_io_alloc_failsafe(usize::MAX);
    assert_eq!(arena.failsafe_limit(), Some(ARENA_HARD_LIMIT));
}

#[test]
fn evaluation_stops_at_the_failsafe() {
    let mut arena = Arena::new(4);
    let s = arena.allocate(S, NIL, NIL).unwrap();
    let k = arena.allocate(K, NIL, NIL).unwrap();
    let sk = arena.allocate(APP, s, k).unwrap();
    let skk = arena.allocate(APP, sk, k).unwrap();
    let app = arena.allocate(APP, skk, k).unwrap();
    arena.enable_io_alloc_failsafe(arena.len() + 2);
    let mut fuel = 100;
    assert_eq!(arena.whnf(app, &mut fuel), Err(AllocError::Failsafe));
}

#[test]
fn shared_nodes_are_allocated_once() {
    let mut arena = Arena::new(4);
    let k = arena.intern_k().unwrap();
    let i = arena.intern_i().unwrap();
    let ki = arena.intern_ki().unwrap();
    let t = arena.intern_marker_t().unwrap();
    let f = arena.intern_marker_f().unwrap();
    let len = arena.len();
    assert_eq!(len, 5);
    assert_eq!(arena.intern_k(), Ok(k));
    assert_eq!(arena.intern_i(), Ok(i));
    assert_eq!(arena.intern_ki(), Ok(ki));
    assert_eq!(arena.intern_marker_t(), Ok(t));
    assert_eq!(arena.intern_marker_f(), Ok(f));
    assert_eq!(arena.len(), len);
    assert_eq!(arena.node(k).tag, K);
    assert_eq!(arena.node(i).tag, I);
    assert_eq!(arena.node(ki).tag, K1);
    assert_eq!(arena.node(ki).a, i);
    assert_eq!(arena.node(t).tag, 100);
    assert_eq!(arena.node(f).tag, 101);
}

#[test]
fn selectors_are_shared() {
    let mut arena = Arena::new(4);
    let sel0 = arena.intern_diamond_sel(0).unwrap();
    assert_eq!(arena.node(sel0).tag, S2);
    let sel4 = arena.intern_diamond_sel(4).unwrap();
    assert_eq!(arena.node(sel4).tag, K1);
    let len = arena.len();
    assert_eq!(arena.intern_diamond_sel(0), Ok(sel0));
    assert_eq!(arena.intern_diamond_sel(4), Ok(sel4));
    assert_eq!(arena.len(), len);
}

#[test]
fn shared_nodes_beyond_the_end_are_not_valid() {
    let mut arena = Arena::new(4);
    arena.intern_k().unwrap();
    assert_eq!(arena.valid_cached(Some(0)), Some(0));
    assert_eq!(arena.valid_cached(Some(1)), None);
    assert_eq!(arena.valid_cached(None), None);
}

#[test]
fn saving_needs_a_checkpoint() {
    let mut arena = Arena::new(4);
    let k = arena.intern_k().unwrap();
    arena.save_node(k);
    assert_eq!(arena.node(k).tag, K);
    assert_eq!(arena.len(), 1);
}

#[test]
fn identity_leaves_an_indirection() {
    let mut arena = Arena::new(4);
    let i = arena.allocate(I, NIL, NIL).unwrap();
    let k = arena.allocate(K, NIL, NIL).unwrap();
    let app = arena.allocate(APP, i, k).unwrap();
    let mut fuel = 10;
    assert_eq!(arena.whnf(app, &mut fuel), Ok(k));
    assert_eq!(fuel, 9);
    assert_eq!(arena.node(app).tag, IND);
    assert_eq!(arena.follow(app), k);
}

#[test]
fn constants_are_recorded() {
    let mut arena = Arena::new(4);
    let k = arena.allocate(K, NIL, NIL).unwrap();
    let i = arena.allocate(I, NIL, NIL).unwrap();
    let ki = arena.allocate(APP, k, i).unwrap();
    let app = arena.allocate(APP, ki, k).unwrap();
    let mut fuel = 10;
    assert_eq!(arena.whnf(app, &mut fuel), Ok(i));
    assert_eq!(fuel, 9);
    assert_eq!(arena.node(ki).tag, K1);
    assert_eq!(arena.node(ki).a, i);
    assert_eq!(arena.node(app).tag, IND);
    let again = arena.allocate(APP, ki, k).unwrap();
    assert_eq!(arena.whnf(again, &mut fuel), Ok(i));
    assert_eq!(fuel, 8);
}

#[test]
fn spreading_records_the_partial_applications() {
    let mut arena = Arena::new(4);
    let s = arena.allocate(S, NIL, NIL).unwrap();
    let k = arena.allocate(K, NIL, NIL).unwrap();
    let i = arena.allocate(I, NIL, NIL).unwrap();
    let sk = arena.allocate(APP, s, k).unwrap();
    let ski = arena.allocate(APP, sk, i).unwrap();
    let app = arena.allocate(APP, ski, s).unwrap();
    let mut fuel = 10;
    assert_eq!(arena.whnf(app, &mut fuel), Ok(s));
    assert_eq!(fuel, 8);
    assert_eq!(arena.node(sk).tag, S1);
    assert_eq!(arena.node(sk).a, k);
    assert_eq!(arena.node(ski).tag, S2);
    assert_eq!((arena.node(ski).a, arena.node(ski).b), (k, i));
    assert_eq!(arena.follow(app), s);
}

#[test]
fn evaluation_without_fuel_does_nothing() {
    let mut arena = Arena::new(4);
    let i = arena.allocate(I, NIL, NIL).unwrap();
    let k = arena.allocate(K, NIL, NIL).unwrap();
    let app = arena.allocate(APP, i, k).unwrap();
    let mut fuel = 0;
    assert_eq!(arena.whnf(app, &mut fuel), Ok(app));
    assert_eq!(arena.node(app).tag, APP);
}

#[test]
fn a_normal_form_takes_no_fuel() {
    let mut arena = Arena::new(4);
    let s = arena.allocate(S, NIL, NIL).unwrap();
    let k = arena.allocate(K, NIL, NIL).unwrap();
    let sk = arena.allocate(APP, s, k).unwrap();
    let skk = arena.allocate(APP, sk, k).unwrap();
    let mut fuel = 7;
    assert_eq!(arena.whnf(skk, &mut fuel), Ok(skk));
    assert_eq!(fuel, 7);
}

#[test]
fn endless_reduction_uses_up_the_fuel() {
    let mut arena = Arena::new(4);
    let s = arena.allocate(S, NIL, NIL).unwrap();
    let i = arena.allocate(I, NIL, NIL).unwrap();
    let si = arena.allocate(APP, s, i).unwrap();
    let sii = arena.allocate(APP, si, i).unwrap();
    let omega = arena.allocate(APP, sii, sii).unwrap();
    let mut fuel = 1000;
    assert!(arena.whnf(omega, &mut fuel).is_ok());
    assert_eq!(fuel, 0);
}

#[test]
fn work_on_a_shared_node_is_done_once() {
    let mut arena = Arena::new(4);
    let k = arena.intern_k().unwrap();
    let t = make_true(&mut arena).unwrap();
    let a1 = arena.allocate(APP, t, k).unwrap();
    let a2 = arena.allocate(APP, a1, t).unwrap();
    let mut fuel = 100;
    let r = arena.whnf(a2, &mut fuel).unwrap();
    assert_eq!(r, k);
    assert_eq!(fuel, 96);
    let len = arena.len();
    assert_eq!(arena.whnf(a2, &mut fuel), Ok(r));
    assert_eq!(fuel, 96);
    assert_eq!(arena.len(), len);
}

#[test]
fn more_fuel_changes_nothing() {
    let mut results = Vec::new();
    for fuel in [5u64, 6, 1000] {
        let mut arena = Arena::new(4);
        let t = make_true(&mut arena).unwrap();
        let k = arena.intern_k().unwrap();
        let a1 = arena.allocate(APP, t, k).unwrap();
        let a2 = arena.allocate(APP, a1, t).unwrap();
        let mut left = fuel;
        let r = arena.whnf(a2, &mut left).unwrap();
        results.push((r, fuel - left, arena.len()));
    }
    assert_eq!(results[0].1, 4);
    assert_eq!(results[0], results[1]);
    assert_eq!(results[0], results[2]);
}

#[test]
fn following_shortens_the_way() {
    let mut arena = Arena::new(4);
    let k = arena.allocate(K, NIL, NIL).unwrap();
    let i1 = arena.allocate(IND, k, NIL).unwrap();
    let i2 = arena.allocate(IND, i1, NIL).unwrap();
    let i3 = arena.allocate(IND, i2, NIL).unwrap();
    assert_eq!(arena.follow(i3), k);
    assert_eq!(arena.node(i3).a, i2);
    assert_eq!(arena.follow_mut(i3), k);
    assert_eq!(arena.node(i3).a, k);
    assert_eq!(arena.node(i2).a, k);
    assert_eq!(arena.node(i1).a, k);
    assert_eq!(arena.follow(i3), k);
}

#[test]
fn collection_frees_what_no_root_leads_to() {
    let mut arena = Arena::new(4);
    let k = arena.allocate(K, NIL, NIL).unwrap();
    let i = arena.allocate(I, NIL, NIL).unwrap();
    let app = arena.allocate(APP, k, i).unwrap();
    let garbage = arena.allocate(S, NIL, NIL).unwrap();
    assert_eq!(arena.gc(&[app]), (4, 3, 1));
    assert_eq!(arena.free_len(), 1);
    assert_eq!(arena.node(app).a, k);
    assert_eq!(arena.gc(&[app]), (4, 3, 1));
    assert_eq!(arena.allocate(I, NIL, NIL), Ok(garbage));
    assert_eq!(arena.free_len(), 0);
    assert_eq!(arena.allocate(I, NIL, NIL), Ok(4));
}

#[test]
fn a_root_that_is_kept_anyway_changes_nothing() {
    let mut arena = Arena::new(4);
    let k = arena.allocate(K, NIL, NIL).unwrap();
    let i = arena.allocate(I, NIL, NIL).unwrap();
    let app = arena.allocate(APP, k, i).unwrap();
    arena.allocate(S, NIL, NIL).unwrap();
    let mut copy = arena.copy();
    assert_eq!(arena.gc(&[app]), copy.gc(&[app, i]));
    assert_eq!(
        arena.allocate(S, NIL, NIL),
        copy.allocate(S, NIL, NIL)
    );
}

#[test]
fn collection_keeps_the_own_roots() {
    let mut arena = Arena::new(4);
    let x = arena.allocate(S, NIL, NIL).unwrap();
    let k = arena.intern_k().unwrap();
    arena.keep_root(x);
    arena.keep_root(x);
    assert_eq!(arena.gc(&[]), (2, 2, 0));
    assert_eq!(arena.node(k).tag, K);
}

#[test]
fn collection_skips_roots_beyond_the_end() {
    let mut arena = Arena::new(4);
    arena.allocate(K, NIL, NIL).unwrap();
    arena.allocate(I, NIL, NIL).unwrap();
    assert_eq!(arena.gc(&[7, NIL]), (2, 0, 2));
    assert_eq!(arena.allocate(S, NIL, NIL), Ok(1));
    assert_eq!(arena.allocate(S, NIL, NIL), Ok(0));
}

#[test]
fn collection_follows_many_nodes() {
    let mut arena = Arena::new(4);
    let mut list = arena.allocate(K, NIL, NIL).unwrap();
    for _ in 0..100 {
        let x = arena.allocate(I, NIL, NIL).unwrap();
        list = make_pair(&mut arena, x, list).unwrap();
        make_true(&mut arena).unwrap();
    }
    let total = arena.len();
    assert_eq!(total, 1 + 100 * (1 + 17 + 7));
    assert_eq!(arena.gc(&[list]), (total, 1 + 100 * 18, 700));
}

#[test]
fn evaluation_can_be_interrupted() {
    let program = b"kD-D-Xk-X--D-";
    for first in 0..8u64 {
        let mut a = Arena::new(16);
        let node = parse_compact(&mut a, program).unwrap();
        let mut b = a.copy();
        let (mut f1, mut f2, mut f3) = (first, 20, first + 20);
        a.whnf(node, &mut f1).unwrap();
        a.whnf(node, &mut f2).unwrap();
        b.whnf(node, &mut f3).unwrap();
        assert_eq!(f1 + f2, f3);
        assert_eq!(a.follow(node), b.follow(node));
        assert_eq!(a.len(), b.len());
    }
}

#[test]
fn selectors_outlive_collections() {
    let mut arena = Arena::new(16);
    let sel = arena.intern_diamond_sel(3).unwrap();
    arena.allocate(S, NIL, NIL).unwrap();
    arena.gc(&[]);
    let (len, free) = (arena.len(), arena.free_len());
    arena.gc(&[0]);
    assert_eq!(arena.intern_diamond_sel(3), Ok(sel));
    assert_eq!((arena.len(), arena.free_len()), (len, free));
}

#[test]
fn roots_are_kept_once() {
    let mut arena = Arena::new(16);
    let node = arena.allocate(K, NIL, NIL).unwrap();
    arena.keep_root(node);
    arena.keep_root(node);
    arena.keep_root(77);
    assert_eq!(arena.gc(&[]), (1, 1, 0));
}

#[test]
fn a_root_on_the_free_list_leaves_it() {
    let mut arena = Arena::new(16);
    let node = arena.allocate(K, NIL, NIL).unwrap();
    assert_eq!(arena.gc(&[]), (1, 0, 1));
    assert_eq!(arena.gc(&[node]), (1, 1, 0));
    assert_eq!(arena.gc(&[node]), (1, 1, 0));
}
