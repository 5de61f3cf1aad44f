use aoc2022::calories::{parse_elves, ElfExpedition};

fn lines(text: &str) -> Vec<String> {
    text.lines().map(|l| l.to_string()).collect()
}

#[test]
fn example_calories() {
    let input = "1000\n2000\n3000\n\n4000\n\n5000\n6000\n\n7000\n8000\n9000\n\n10000";
    let elves = parse_elves(lines(input)).unwrap();
    let totals: Vec<i32> = elves.elves.iter().map(|e| e.calories).collect();
    assert_eq!(totals, vec![6000, 4000, 11000, 24000, 10000]);
    assert_eq!(elves.top_three_total(), 45000);
}

#[test]
fn fewer_than_three_elves() {
    let elves = parse_elves(lines("5\n\n7")).unwrap();
    assert_eq!(elves.top_three_total(), 12);
    let none = parse_elves(Vec::new()).unwrap();
    assert_eq!(none.top_three_total(), 0);
}

#[test]
fn repeated_blank_lines_make_no_empty_elf() {
    let elves = parse_elves(lines("1\n\n\n2\n")).unwrap();
    assert_eq!(elves.elves.len(), 2);
}

#[test]
fn bad_line_is_an_error() {
    assert!(parse_elves(lines("1\nx")).is_err());
}

#[test]
fn packing_by_hand() {
    let mut e = ElfExpedition::new();
    e.pack_elf();
    assert!(e.elves.is_empty());
    e.pack_snack(3);
    e.pack_snack(-1);
    e.pack_elf();
    e.pack_snack(10);
    e.pack_elf();
    e.pack_snack(1);
    e.pack_elf();
    e.pack_snack(-50);
    e.pack_elf();
    assert_eq!(e.elves.len(), 4);
    assert_eq!(e.elves[0].calories, 2);
    assert_eq!(e.top_three_total(), 13);
}
