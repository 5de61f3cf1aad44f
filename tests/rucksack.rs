use aoc2022::rucksack::{badge_total, intersection, Rucksack};

#[test]
fn split_into_compartments() {
    let r = Rucksack::from_input(&"vJrwpWtwJgWrhcsFMMfFFhFp".to_string()).unwrap();
    let a: String = r.compartment_a.iter().collect();
    let b: String = r.compartment_b.iter().collect();
    assert_eq!(a, "vJrwpWtwJgWr");
    assert_eq!(b, "hcsFMMfFFhFp");
    let all: String = r.contents().iter().collect();
    assert_eq!(all, "vJrwpWtwJgWrhcsFMMfFFhFp");
}

#[test]
fn odd_length_is_refused() {
    assert!(Rucksack::from_input(&"abc".to_string()).is_err());
    let empty = Rucksack::from_input(&String::new()).unwrap();
    assert!(empty.contents().is_empty());
}

#[test]
fn priorities() {
    assert_eq!(Rucksack::item_priority(&'a'), 1);
    assert_eq!(Rucksack::item_priority(&'z'), 26);
    assert_eq!(Rucksack::item_priority(&'A'), 27);
    assert_eq!(Rucksack::item_priority(&'Z'), 52);
    assert_eq!(Rucksack::item_priority(&'p'), 16);
    assert_eq!(Rucksack::item_priority(&'L'), 38);
}

#[test]
fn common_items() {
    let r = Rucksack::from_input(&"vJrwpWtwJgWrhcsFMMfFFhFp".to_string()).unwrap();
    let common = intersection(r.compartment_a.clone(), r.compartment_b.clone());
    assert_eq!(common, vec!['p']);
    let group = intersection(
        intersection(
            "vJrwpWtwJgWrhcsFMMfFFhFp".chars().collect(),
            "jqHRNqRjqzjGDLGLrsFMfFZSrLrFZsSL".chars().collect(),
        ),
        "PmmdzqPrVvPwwTWBwg".chars().collect(),
    );
    assert_eq!(group, vec!['r']);
    assert!(intersection(vec!['a', 'a'], vec!['b']).is_empty());
    assert_eq!(intersection(vec!['a', 'b', 'a'], vec!['a', 'b']), vec!['a', 'b']);
}

#[test]
fn group_badges() {
    let lines = [
        "vJrwpWtwJgWrhcsFMMfFFhFp",
        "jqHRNqRjqzjGDLGLrsFMfFZSrLrFZsSL",
        "PmmdzqPrVvPwwTWBwg",
        "wMqvLMZHhHMvwLHjbvcjnnSBnvTQFn",
        "ttgJtRGJQctTZtZT",
        "CrZsJsPPZsGzwwsLwLmpwMDw",
    ];
    let sacks: Vec<Rucksack> = lines.iter().map(|l| Rucksack::from_input(&l.to_string()).unwrap()).collect();
    assert_eq!(badge_total(&sacks), Ok(70));
    assert_eq!(badge_total(&Vec::new()), Ok(0));
    let no_badge: Vec<Rucksack> = ["ab", "cd", "ef"].iter().map(|l| Rucksack::from_input(&l.to_string()).unwrap()).collect();
    assert!(badge_total(&no_badge).is_err());
    let alone: Vec<Rucksack> = ["aa"].iter().map(|l| Rucksack::from_input(&l.to_string()).unwrap()).collect();
    assert!(badge_total(&alone).is_err());
}
