use aoc2022::cleanup::{count_overlapping, CleaningAssignment, Section};

#[test]
fn sections_read() {
    let s = Section::from_input("2-4").unwrap();
    assert_eq!((s.start, s.end), (2, 4));
    let s = Section::from_input("+12-345").unwrap();
    assert_eq!((s.start, s.end), (12, 345));
    assert!(Section::from_input("2").is_err());
    assert!(Section::from_input("2-4-6").is_err());
    assert!(Section::from_input("a-4").is_err());
    assert!(Section::from_input("2-").is_err());
    assert!(Section::from_input("-2-4").is_err());
    assert!(Section::from_input("1-4294967296").is_err());
}

#[test]
fn overlaps() {
    let a = Section { start: 5, end: 7 };
    let b = Section { start: 7, end: 9 };
    let c = Section { start: 8, end: 9 };
    assert!(a.overlap(&b));
    assert!(b.overlap(&a));
    assert!(!a.overlap(&c));
    assert!(a.left_overlap(&b));
    assert!(b.left_overlap(&Section { start: 1, end: 7 }));
    assert!(!b.left_overlap(&Section { start: 1, end: 6 }));
}

#[test]
fn assignments() {
    let lines = ["2-4,6-8", "2-3,4-5", "5-7,7-9", "2-8,3-7", "6-6,4-6", "2-6,4-8"];
    let count = lines
        .iter()
        .map(|l| CleaningAssignment::from_input(&l.to_string()).unwrap())
        .filter(|a| a.pair_overlap())
        .count();
    assert_eq!(count, 4);
    let a = CleaningAssignment::from_input(&"2-4,6-8".to_string()).unwrap();
    assert_eq!((a.left.start, a.left.end, a.right.start, a.right.end), (2, 4, 6, 8));
    assert!(CleaningAssignment::from_input(&"2-4".to_string()).is_err());
    assert!(CleaningAssignment::from_input(&"2-4,6-8,1-1".to_string()).is_err());
    assert!(CleaningAssignment::from_input(&"2-4,x".to_string()).is_err());
}

#[test]
fn overlapping_pairs_counted() {
    let lines: Vec<String> =
        ["2-4,6-8", "2-3,4-5", "5-7,7-9", "2-8,3-7", "6-6,4-6", "2-6,4-8"].iter().map(|l| l.to_string()).collect();
    assert_eq!(count_overlapping(&lines), Ok(4));
    assert_eq!(count_overlapping(&Vec::new()), Ok(0));
    let bad: Vec<String> = ["2-4,6-8", "oops"].iter().map(|l| l.to_string()).collect();
    assert!(count_overlapping(&bad).is_err());
}
