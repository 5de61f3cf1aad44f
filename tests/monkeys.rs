use aoc2022::monkeys::{Monkey, MonkeyGame, MonkeyOp, MonkeyOpArg, MonkeyTest};

fn example() -> Vec<Monkey> {
    vec![
        Monkey::new(0, vec![79, 98], MonkeyOp::new("*".to_string(), MonkeyOpArg::IntArg(19)), MonkeyTest::new(23, 2, 3)),
        Monkey::new(1, vec![54, 65, 75, 74], MonkeyOp::new("+".to_string(), MonkeyOpArg::IntArg(6)), MonkeyTest::new(19, 2, 0)),
        Monkey::new(2, vec![79, 60, 97], MonkeyOp::new("*".to_string(), MonkeyOpArg::Old), MonkeyTest::new(13, 1, 3)),
        Monkey::new(3, vec![74], MonkeyOp::new("+".to_string(), MonkeyOpArg::IntArg(3)), MonkeyTest::new(17, 0, 1)),
    ]
}

#[test]
fn game_modulus_is_product_of_divisors() {
    let g = MonkeyGame::new(example());
    assert_eq!(g.gcd, 23 * 19 * 13 * 17);
}

#[test]
fn first_round_counts() {
    let mut g = MonkeyGame::new(example());
    g.round();
    let counts: Vec<usize> = g.monkeys.iter().map(|m| m.inspected_items).collect();
    assert_eq!(counts, vec![2, 4, 3, 6]);
    assert!(g.monkeys[2].items.is_empty() && g.monkeys[3].items.is_empty());
}

#[test]
fn many_rounds_monkey_business() {
    let mut g = MonkeyGame::new(example());
    for _ in 0..10000 {
        g.round();
    }
    let mut counts: Vec<usize> = g.monkeys.iter().map(|m| m.inspected_items).collect();
    assert_eq!(counts, vec![52166, 47830, 1938, 52013]);
    counts.sort();
    assert_eq!(counts[3] * counts[2], 2713310158);
}

#[test]
fn single_monkey_pieces() {
    let t = MonkeyTest::new(23, 2, 3);
    assert_eq!(t.apply(46), 2);
    assert_eq!(t.apply(47), 3);
    let op = MonkeyOp::new("*".to_string(), MonkeyOpArg::Old);
    assert_eq!(op.apply(7), 49);
    assert_eq!(op.arg0(7), 7);
    let add = MonkeyOp::new("+".to_string(), MonkeyOpArg::IntArg(6));
    assert_eq!(add.apply(7), 13);
    assert_eq!(add.arg0(7), 6);
    let mut m = Monkey::new(0, vec![79, 98], MonkeyOp::new("*".to_string(), MonkeyOpArg::IntArg(19)), t);
    let (n, thrown) = m.round(&1_000_000);
    assert_eq!(n, 2);
    assert_eq!(thrown, vec![(3, 1501), (3, 1862)]);
    m.catch_item(5);
    assert_eq!(m.items, vec![79, 98, 5]);
}

#[test]
fn business_of_the_two_busiest() {
    let mut g = MonkeyGame::new(example());
    for _ in 0..10000 {
        g.round();
    }
    assert_eq!(g.monkey_business(), 2713310158);
    let empty = MonkeyGame::new(Vec::new());
    assert_eq!(empty.monkey_business(), 1);
}
