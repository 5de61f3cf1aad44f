use aoc2022::rope::{Dir, Knot, Move, Rope};

fn run(lines: &[&str], knots: usize) -> usize {
    let mut rope = Rope::new(knots);
    for l in lines {
        let m = Move::new(l.to_string()).unwrap();
        rope.apply_move(&m);
    }
    let t = *rope.tail();
    rope.end_knot_history.push(t);
    let mut seen: Vec<Knot> = Vec::new();
    for k in rope.end_knot_history.iter() {
        if !seen.contains(k) {
            seen.push(*k);
        }
    }
    seen.len()
}

const STEPS: [&str; 8] = ["R 4", "U 4", "L 3", "D 1", "R 4", "D 1", "L 5", "R 2"];

#[test]
fn tail_visits_with_two_knots() {
    assert_eq!(run(&STEPS, 2), 13);
}

#[test]
fn tail_visits_with_ten_knots() {
    assert_eq!(run(&STEPS, 10), 1);
    let larger = ["R 5", "U 8", "L 8", "D 3", "R 17", "D 10", "L 25", "U 20"];
    assert_eq!(run(&larger, 10), 36);
}

#[test]
fn moves_read() {
    let m = Move::new("U 12".to_string()).unwrap();
    assert_eq!((m.dir, m.steps), (Dir::Up, 12));
    assert!(Move::new("X 1".to_string()).is_err());
    assert!(Move::new("U".to_string()).is_err());
    assert!(Move::new("U 70000".to_string()).is_err());
    assert_eq!(Dir::new("L"), Ok(Dir::Left));
    assert!(Dir::new("LL").is_err());
}

#[test]
fn knots_step_and_follow() {
    let k = Knot::new(0, 0);
    assert_eq!(k.move_to(&Dir::RightUp), Knot::new(1, 1));
    assert_eq!(k.move_to(&Dir::Down), Knot::new(0, -1));
    assert_eq!(k.dir_towards(&Knot::new(2, 1)), Dir::RightUp);
    assert_eq!(k.dir_towards(&Knot::new(-2, 0)), Dir::Left);
    assert_eq!(k.dir_towards(&Knot::new(0, 0)), Dir::NoOp);
    assert!(k.is_adjacent(&Knot::new(1, -1)));
    assert!(!k.is_adjacent(&Knot::new(2, 0)));
    assert!(k.is_left(&Knot::new(-1, 0)) && k.is_right(&Knot::new(1, 0)));
    assert!(k.is_above(&Knot::new(0, 1)) && k.is_below(&Knot::new(0, -1)));
    assert!(k.eq_row(&Knot::new(0, 5)) && k.eq_col(&Knot::new(5, 0)));
}

#[test]
fn one_step_of_the_rope() {
    let mut rope = Rope::new(3);
    rope.apply_dir(&Dir::Right);
    rope.apply_dir(&Dir::Right);
    assert_eq!(*rope.head(), Knot::new(2, 0));
    assert_eq!(rope.knots[1], Knot::new(1, 0));
    assert_eq!(*rope.tail(), Knot::new(0, 0));
    rope.apply_dir(&Dir::Right);
    assert_eq!(*rope.tail(), Knot::new(1, 0));
    assert_eq!(rope.end_knot_history.len(), 3);
}

#[test]
fn visited_positions_counted() {
    let mut rope = Rope::new(2);
    for l in STEPS.iter() {
        rope.apply_move(&Move::new(l.to_string()).unwrap());
    }
    assert_eq!(rope.visited_count(), 13);
    assert_eq!(Rope::new(3).visited_count(), 1);
}
