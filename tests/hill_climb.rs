use aoc2022::hill_climb::{dijkstra, new, shortest_distance, Graph, ParseError, Vertex};

const EXAMPLE: &str = "Sabqponm\nabcryxxl\naccszExk\nacctuvwj\nabdefghi";

fn graph(text: &str) -> Graph {
    new(text.to_string()).expect("a valid grid")
}

#[test]
fn example_grid_distance() {
    let g = graph(EXAMPLE);
    assert_eq!(shortest_distance(&g), Some(31));
}

#[test]
fn example_grid_with_trailing_break() {
    let text = format!("{}\n", EXAMPLE);
    let g = graph(&text);
    assert_eq!(g.len(), 40);
    assert_eq!(shortest_distance(&g), Some(31));
}

#[test]
fn repeated_search_same_result() {
    let g = graph(EXAMPLE);
    let first = shortest_distance(&g);
    let second = shortest_distance(&g);
    assert_eq!(first, second);
}

#[test]
fn start_equals_target_is_zero() {
    let g = graph(EXAMPLE);
    let s = g.start();
    assert_eq!(dijkstra(&g, s, s).distance, Some(0));
    let single = graph("S\nE");
    assert_eq!(dijkstra(&single, 1, 1).distance, Some(0));
}

#[test]
fn walled_target_has_no_path() {
    // the target is ringed by 'x' cells, more than one unit above every
    // cell that could reach them
    let g = graph("Saaaa\naaxaa\naxExa\naaxaa");
    assert_eq!(shortest_distance(&g), None);
}

#[test]
fn steep_step_is_refused_but_descent_is_free() {
    // from S (at a) the c to the right is too steep, and from the a below
    // it the target (at z) is too steep
    let g = graph("Sc\naE");
    assert_eq!(shortest_distance(&g), None);
    // up the first row, down one, and up again along the second row
    let ok = graph("Sbcdefghijklm\nEyxwvutsrqpon");
    assert_eq!(shortest_distance(&ok), Some(25));
}

#[test]
fn settled_cells_in_order_of_distance() {
    let g = graph(EXAMPLE);
    let r = dijkstra(&g, g.start(), g.target());
    assert_eq!(r.distance, Some(31));
    let mut seen = vec![false; g.len()];
    for w in r.settled.windows(2) {
        assert!(w[0].1 <= w[1].1);
    }
    for &(c, _) in r.settled.iter() {
        assert!(!seen[c]);
        seen[c] = true;
    }
    assert_eq!(r.settled[0], (g.start(), 0));
    assert_eq!(*r.settled.last().unwrap(), (g.target(), 31));
}

#[test]
fn distance_at_most_cells_minus_one() {
    let g = graph("Sabcdefghijklmnopqrstuvwxy\nzzzzzzzzzzzzzzzzzzzzzzzzzE");
    let d = shortest_distance(&g).unwrap();
    assert_eq!(d, 26);
    assert!(d <= g.len() - 1);
}

#[test]
fn parse_errors() {
    assert_eq!(new("SabcE".to_string()).err(), Some(ParseError::NotRectangular));
    assert_eq!(new("\nSE".to_string()).err(), Some(ParseError::NotRectangular));
    assert_eq!(new("Sab\ncE".to_string()).err(), Some(ParseError::NotRectangular));
    assert_eq!(new("Sa\ncEd".to_string()).err(), Some(ParseError::NotRectangular));
    assert_eq!(new("Sa\n\ncE".to_string()).err(), Some(ParseError::NotRectangular));
    assert_eq!(new("Sa\nbc".to_string()).err(), Some(ParseError::MissingTarget));
    assert_eq!(new("aa\nbc".to_string()).err(), Some(ParseError::MissingTarget));
    assert_eq!(new("Ea\nbc".to_string()).err(), Some(ParseError::MissingStart));
}

#[test]
fn parse_positions() {
    let g = graph(EXAMPLE);
    assert_eq!(g.len(), 40);
    assert_eq!(g.start(), 0);
    assert_eq!(g.target(), 21);
}

#[test]
fn vertex_coordinates_and_height() {
    let v = Vertex::new(21, 'E', 8);
    assert_eq!((v.x, v.y), (5, 2));
    assert_eq!(v.height(), 'z' as usize);
    assert_eq!(Vertex::new(0, 'S', 8).height(), 'a' as usize);
    assert_eq!(Vertex::new(3, 'q', 8).height(), 'q' as usize);
}

#[test]
fn neighbours_inside_and_on_edges() {
    let mut inner = Vertex::new(9, 'a', 8).neighbours(40);
    inner.sort();
    assert_eq!(inner, vec![1, 8, 10, 17]);
    let corner = Vertex::new(0, 'a', 8).neighbours(40);
    assert_eq!(corner, vec![8, 1]);
    let last = Vertex::new(39, 'a', 8).neighbours(40);
    assert_eq!(last, vec![38, 31]);
}

#[test]
fn step_cost_rule() {
    let a = Vertex::new(0, 'a', 8);
    let b = Vertex::new(1, 'b', 8);
    let c = Vertex::new(1, 'c', 8);
    let far = Vertex::new(2, 'a', 8);
    assert_eq!(Graph::distance(&a, &b), Some(1));
    assert_eq!(Graph::distance(&a, &c), None);
    assert_eq!(Graph::distance(&c, &a), Some(1));
    assert_eq!(Graph::distance(&a, &far), None);
    assert!(a.is_neighbour(&b));
    assert!(!a.is_neighbour(&far));
}

#[test]
fn adjacent_steps_of_start() {
    let g = graph(EXAMPLE);
    let mut steps = g.adjacent_nodes(0);
    steps.sort();
    assert_eq!(steps, vec![(1, 1), (8, 1)]);
    // from the b at index 2 the q to the right is too high
    let steps2 = g.adjacent_nodes(2);
    assert_eq!(steps2, vec![(1, 1), (10, 1)]);
}

#[test]
fn diagonal_is_no_step() {
    let a = Vertex::new(0, 'a', 8);
    let diagonal = Vertex::new(9, 'a', 8);
    assert!(a.is_neighbour(&diagonal));
    assert_eq!(Graph::distance(&a, &diagonal), None);
    assert_eq!(Graph::distance(&a, &a), None);
}

#[test]
fn elevation_difference() {
    let a = Vertex::new(0, 'a', 8);
    let c = Vertex::new(1, 'c', 8);
    assert_eq!(a.distance(&c), 2);
    assert_eq!(c.distance(&a), 2);
    assert_eq!(Vertex::new(2, 'E', 8).distance(&Vertex::new(3, 'y', 8)), 1);
}

#[test]
fn neighbours_are_distinct_and_ordered() {
    assert_eq!(Vertex::new(0, 'a', 8).neighbours(40), vec![8, 1]);
    assert_eq!(Vertex::new(39, 'l', 8).neighbours(40), vec![38, 31]);
    assert_eq!(Vertex::new(9, 'a', 8).neighbours(40), vec![8, 1, 17, 10]);
    assert_eq!(Vertex::new(0, 'a', 1).neighbours(3), vec![1]);
}
