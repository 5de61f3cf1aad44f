use aoc2022::cave::{parse_point, Cave, RockPath};

fn example_cave() -> Cave {
    let lines = ["498,4 -> 498,6 -> 496,6", "503,4 -> 502,4 -> 502,9 -> 494,9"];
    let paths: Vec<Vec<(i32, i32)>> =
        lines.iter().map(|l| l.split(" -> ").map(|p| parse_point(p).unwrap()).collect()).collect();
    Cave::new(paths)
}

#[test]
fn sand_fills_up_to_the_source() {
    let mut c = example_cave();
    assert_eq!(c.bottom_level, 9);
    assert_eq!((c.left_most, c.right_most), (494, 503));
    loop {
        let s = c.move_sand();
        if s == (500, 0) {
            break;
        }
    }
    assert_eq!(c.sand_unit_total, 93);
}

#[test]
fn first_units_of_sand() {
    let mut c = example_cave();
    assert_eq!(c.move_sand(), (500, 8));
    assert_eq!(c.move_sand(), (499, 8));
    assert_eq!(c.move_sand(), (501, 8));
    assert!(!c.is_free((500, 8)));
    assert!(!c.is_free((498, 5)));
    assert!(c.is_free((500, 7)));
    assert_eq!(c.next_sand_pos((500, 7)), (500, 7));
    assert_eq!(c.next_sand_pos((500, 0)), (500, 1));
    assert!(c.above_bottom_rock((0, 9)));
    assert!(!c.above_bottom_rock((0, 10)));
    assert_eq!(Cave::new_sand(), (500, 0));
}

#[test]
fn rock_paths() {
    let rp = RockPath::new(vec![(498, 4), (498, 6), (496, 6)]);
    assert_eq!(rp.path_lines, vec![((498, 4), (498, 6)), ((498, 6), (496, 6))]);
    assert_eq!((rp.lowest_level, rp.left_most, rp.right_most), (6, 496, 498));
    assert!(rp.is_blocked((498, 5)));
    assert!(rp.is_blocked((497, 6)));
    assert!(!rp.is_blocked((497, 5)));
}

#[test]
fn points_read() {
    assert_eq!(parse_point("498,4"), Ok((498, 4)));
    assert_eq!(parse_point("-1,-2"), Ok((-1, -2)));
    assert!(parse_point("498").is_err());
    assert!(parse_point("1,2,3").is_err());
    assert!(parse_point("a,2").is_err());
}

#[test]
fn filling_stops_at_the_source() {
    let mut c = example_cave();
    assert!(c.fill(1000));
    assert_eq!(c.sand_unit_total, 93);
    let mut d = example_cave();
    assert!(!d.fill(24));
    assert_eq!(d.sand_unit_total, 24);
}
