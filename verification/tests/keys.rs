use ski_eval::arena::Arena;
use ski_eval::encode::{make_false, make_pair, make_scott_num, make_true};
use ski_eval::keys::{
    best_code, find_key, key_cost, key_costs, key_start, key_trial, next_code, no_winner, ranking,
    second_cost, try_key, KEY_CODES, KEY_LENGTH,
};
use ski_eval::node::{APP, I, K, K1, NIL, S, S2};

const FUEL: u64 = 10_000_000;

enum Expr {
    Var,
    Node(u32),
    App(Box<Expr>, Box<Expr>),
}

fn app(f: Expr, x: Expr) -> Expr {
    Expr::App(Box::new(f), Box::new(x))
}

/// A function of the variable.
fn lambda(arena: &mut Arena, e: &Expr) -> u32 {
    match e {
        Expr::Var => arena.allocate(I, NIL, NIL).unwrap(),
        Expr::Node(n) => arena.allocate(K1, *n, NIL).unwrap(),
        Expr::App(f, x) => {
            let f = lambda(arena, f);
            let x = lambda(arena, x);
            arena.allocate(S2, f, x).unwrap()
        }
    }
}

/// A function of a string that does much work if the outermost code is sixteen.
fn picky(arena: &mut Arena) -> u32 {
    let k = arena.allocate(K, NIL, NIL).unwrap();
    let i = arena.allocate(I, NIL, NIL).unwrap();
    let ki = arena.allocate(K1, i, NIL).unwrap();
    let mut heavy = i;
    for _ in 0..300 {
        heavy = arena.allocate(APP, i, heavy).unwrap();
    }
    let mut choice = Expr::Node(heavy);
    for bit in (0..4).rev() {
        let mut n = app(app(Expr::Var, Expr::Node(k)), Expr::Node(i));
        for _ in 0..bit {
            n = app(app(n, Expr::Node(ki)), Expr::Node(i));
        }
        let b = app(app(n, Expr::Node(k)), Expr::Node(i));
        choice = app(app(b, Expr::Node(i)), choice);
    }
    lambda(arena, &choice)
}

#[test]
fn the_largest_cost() {
    assert_eq!(best_code(&vec![5]), 0);
    assert_eq!(best_code(&vec![1, 7, 3, 7]), 1);
    assert_eq!(second_cost(&vec![1, 7, 3, 7]), 7);
    assert_eq!(second_cost(&vec![1, 7, 3]), 3);
    assert_eq!(ranking(&vec![1, 7, 3, 7]), vec![1, 3, 2, 0]);
    assert_eq!(ranking(&vec![]), Vec::<usize>::new());
}

#[test]
fn winners() {
    assert!(no_winner(100, 100));
    assert!(no_winner(1009, 1000));
    assert!(!no_winner(1010, 1000));
    assert!(!no_winner(5, 0));
    assert!(!no_winner(0, 0));
    assert!(no_winner(u64::MAX, u64::MAX));
    assert_eq!(next_code(&vec![1, 7, 3]), Some(2));
    assert_eq!(next_code(&vec![7, 7, 3]), None);
    assert_eq!(next_code(&vec![0, 0]), Some(0));
}

#[test]
fn a_copy_is_independent() {
    let mut arena = Arena::new(4);
    let node = arena.allocate(K, NIL, NIL).unwrap();
    let mut copy = arena.copy();
    assert_eq!(copy.node(node), arena.node(node));
    copy.allocate(I, NIL, NIL).unwrap();
    assert_eq!(copy.len(), 2);
    assert_eq!(arena.len(), 1);
}

#[test]
fn the_code_that_costs_most() {
    let mut arena = Arena::new(0);
    let q = picky(&mut arena);
    let len = arena.len();
    let costs = key_costs(&arena, q, &vec![3], FUEL).unwrap();
    assert_eq!(costs.len(), KEY_CODES);
    assert_eq!(best_code(&costs), 15);
    assert!(costs[15] > 300);
    assert_eq!(next_code(&costs), Some(16));
    let mut copy = arena.copy();
    assert_eq!(key_cost(&mut copy, q, &vec![3, 16], FUEL), Ok(costs[15]));
    let found = find_key(&arena, q, FUEL).unwrap();
    assert_eq!(found.codes, vec![16u64; KEY_LENGTH]);
    assert_eq!(found.trials.len(), KEY_LENGTH);
    assert!(!found.ended);
    assert_eq!(arena.len(), len);
}

#[test]
fn a_program_that_ignores_its_input() {
    let mut arena = Arena::new(0);
    let value = make_true(&mut arena).unwrap();
    let q = arena.allocate(K1, value, NIL).unwrap();
    let found = find_key(&arena, q, FUEL).unwrap();
    assert_eq!(found.codes, Vec::<u64>::new());
    assert_eq!(found.trials.len(), 1);
    assert!(found.ended);
}

/// `S (S I (K a)) (K b)`
fn pair1(arena: &mut Arena, a: u32, b: u32) -> u32 {
    let e = app(app(Expr::Var, Expr::Node(a)), Expr::Node(b));
    lambda(arena, &e)
}

fn church(arena: &mut Arena, n: u64) -> u32 {
    let mut node = make_false(arena).unwrap();
    for _ in 0..n {
        let s = arena.allocate(S, NIL, NIL).unwrap();
        let k = arena.allocate(K, NIL, NIL).unwrap();
        let ks = arena.allocate(K1, s, NIL).unwrap();
        let compose = arena.allocate(S2, ks, k).unwrap();
        node = arena.allocate(S2, compose, node).unwrap();
    }
    node
}

fn instruction(arena: &mut Arena, p1: u64, p2: u64, operand: u32) -> u32 {
    let p1 = church(arena, p1);
    let p2 = church(arena, p2);
    let tag = pair1(arena, p1, p2);
    pair1(arena, tag, operand)
}

#[test]
fn replies() {
    let mut arena = Arena::new(0);
    let nil = make_false(&mut arena).unwrap();
    let code = make_scott_num(&mut arena, 72).unwrap();
    let text = make_pair(&mut arena, code, nil).unwrap();
    let answer = pair1(&mut arena, text, nil);
    let answer = instruction(&mut arena, 1, 1, answer);
    let q = arena.allocate(K1, answer, NIL).unwrap();
    let input = instruction(&mut arena, 2, 0, q);
    let question = pair1(&mut arena, nil, input);
    let program = instruction(&mut arena, 1, 1, question);
    let (first, second) = key_start(&mut arena, program, FUEL).unwrap();
    assert_eq!(first.p1, Some(1));
    assert_eq!(second.p1, Some(2));
    let reply = try_key(&mut arena, second.operand, &vec![1, 2], FUEL, FUEL).unwrap();
    assert_eq!(reply.p1, Some(1));
    assert_eq!(reply.p2, Some(1));
    assert_eq!(reply.text, Some("H".to_string()));
    let mut copy = arena.copy();
    let trial = key_trial(&mut copy, second.operand, &vec![1, 2], FUEL).unwrap();
    assert_eq!(trial.p1, Some(1));
    assert_eq!(trial.first, Some(Some(72)));
    let mut copy = arena.copy();
    assert_eq!(
        key_cost(&mut copy, second.operand, &vec![1, 2], FUEL),
        Ok(trial.cost)
    );
    assert!(trial.cost > 0);
    let silent = pair1(&mut arena, nil, nil);
    let silent = instruction(&mut arena, 1, 1, silent);
    let quiet = arena.allocate(K1, silent, NIL).unwrap();
    let trial = key_trial(&mut arena, quiet, &vec![1], FUEL).unwrap();
    assert_eq!(trial.p1, Some(1));
    assert_eq!(trial.first, None);
    let halt = instruction(&mut arena, 0, 0, nil);
    let q = arena.allocate(K1, halt, NIL).unwrap();
    let reply = try_key(&mut arena, q, &vec![], FUEL, FUEL).unwrap();
    assert_eq!(reply.p1, Some(0));
    assert_eq!(reply.p2, None);
    assert_eq!(reply.text, None);
}
