use aoc2022::trees::{TreeCoord, TreeGrid, Vec2d, VizPath};

const FOREST: &str = "30373\n25512\n65332\n33549\n35390";

#[test]
fn grid_of_vectors() {
    let mut v = Vec2d::new(vec![1, 2, 3, 4, 5, 6], 2, 3);
    assert_eq!(v.row(1), &[4, 5, 6]);
    assert_eq!(*v.index(0, 2), 3);
    *v.index_mut(1, 0) = 40;
    assert_eq!(v.row(1), &[40, 5, 6]);
    assert_eq!((v.row_count(), v.col_count()), (2, 3));
}

#[test]
fn forest_reads() {
    let tg = TreeGrid::new(FOREST.to_string()).unwrap();
    assert_eq!(*tg.height(&TreeCoord { x: 0, y: 0 }), 3);
    assert_eq!(*tg.height(&TreeCoord { x: 3, y: 4 }), 9);
    assert_eq!(tg.edge_tree_count(), 16);
    assert!(TreeGrid::new("12345".to_string()).is_err());
    assert!(TreeGrid::new("12\n3x".to_string()).is_err());
    assert!(TreeGrid::new("12\n345".to_string()).is_err());
}

#[test]
fn visible_trees() {
    let tg = TreeGrid::new(FOREST.to_string()).unwrap();
    let inner = tg.inner_trees();
    assert_eq!(inner.len(), 9);
    let visible = inner.iter().filter(|t| t.is_visible(&tg)).count();
    assert_eq!(visible + tg.edge_tree_count(), 21);
    assert_eq!(tg.count_visible(&inner), 5);
    assert!(TreeCoord { x: 1, y: 1 }.is_visible(&tg));
    assert!(!TreeCoord { x: 1, y: 3 }.is_visible(&tg));
}

#[test]
fn scenic_scores() {
    let tg = TreeGrid::new(FOREST.to_string()).unwrap();
    assert_eq!(TreeCoord { x: 1, y: 2 }.scenic_score(&tg), 4);
    assert_eq!(TreeCoord { x: 3, y: 2 }.scenic_score(&tg), 8);
    let best = tg.inner_trees().iter().map(|t| t.scenic_score(&tg)).max().unwrap();
    assert_eq!(best, 8);
}

#[test]
fn paths_to_the_edges() {
    let c = TreeCoord { x: 1, y: 2 };
    let down = VizPath::down(&c, 4);
    assert_eq!(down.dir, "DOWN");
    assert_eq!(down.path, vec![TreeCoord { x: 2, y: 2 }, TreeCoord { x: 3, y: 2 }]);
    let up = VizPath::up(&c);
    assert_eq!(up.dir, "UP");
    assert_eq!(up.path, vec![TreeCoord { x: 0, y: 2 }]);
    let right = VizPath::right(&c, 4);
    assert_eq!(right.dir, "RIGHT");
    assert_eq!(right.path, vec![TreeCoord { x: 1, y: 3 }]);
    let left = VizPath::left(&c);
    assert_eq!(left.dir, "LEFT");
    assert_eq!(left.path, vec![TreeCoord { x: 1, y: 1 }, TreeCoord { x: 1, y: 0 }]);
}
