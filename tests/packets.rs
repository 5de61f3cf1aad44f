use aoc2022::packets::{are_ordered, decoder_key, ordered_index_sum, packets_before, DataGram, PacketPair};

fn num(v: u32) -> DataGram {
    DataGram::Int(v)
}

fn list(items: Vec<DataGram>) -> DataGram {
    DataGram::List(items)
}

fn ints(vs: &[u32]) -> DataGram {
    list(vs.iter().map(|&v| num(v)).collect())
}

#[test]
fn example_pairs() {
    // [1,1,3,1,1] vs [1,1,5,1,1]
    assert_eq!(are_ordered(&ints(&[1, 1, 3, 1, 1]), &ints(&[1, 1, 5, 1, 1])), Some(true));
    // [[1],[2,3,4]] vs [[1],4]
    assert_eq!(are_ordered(&list(vec![ints(&[1]), ints(&[2, 3, 4])]), &list(vec![ints(&[1]), num(4)])), Some(true));
    // [9] vs [[8,7,6]]
    assert_eq!(are_ordered(&ints(&[9]), &list(vec![ints(&[8, 7, 6])])), Some(false));
    // [[4,4],4,4] vs [[4,4],4,4,4]
    assert_eq!(
        are_ordered(&list(vec![ints(&[4, 4]), num(4), num(4)]), &list(vec![ints(&[4, 4]), num(4), num(4), num(4)])),
        Some(true)
    );
    // [7,7,7,7] vs [7,7,7]
    assert_eq!(are_ordered(&ints(&[7, 7, 7, 7]), &ints(&[7, 7, 7])), Some(false));
    // [] vs [3]
    assert_eq!(are_ordered(&ints(&[]), &ints(&[3])), Some(true));
    // [[[]]] vs [[]]
    assert_eq!(are_ordered(&list(vec![list(vec![ints(&[])])]), &list(vec![ints(&[])])), Some(false));
}

#[test]
fn equal_packets_are_undecided() {
    assert_eq!(are_ordered(&ints(&[1, 2]), &ints(&[1, 2])), None);
    assert_eq!(are_ordered(&num(3), &ints(&[3])), None);
    assert_eq!(are_ordered(&num(3), &num(4)), Some(true));
}

#[test]
fn pairs_in_order() {
    let p = PacketPair::new(1, ints(&[1, 1, 3, 1, 1]), ints(&[1, 1, 5, 1, 1]));
    assert!(p.is_right_order());
    assert_eq!(p.index, 1);
    let q = PacketPair::new(2, ints(&[1, 2]), ints(&[1, 2]));
    assert!(!q.is_right_order());
    let r = PacketPair::new(3, ints(&[7, 7, 7, 7]), ints(&[7, 7, 7]));
    assert!(!r.is_right_order());
}

const PAIRS: [&str; 16] = [
    "[1,1,3,1,1]",
    "[1,1,5,1,1]",
    "[[1],[2,3,4]]",
    "[[1],4]",
    "[9]",
    "[[8,7,6]]",
    "[[4,4],4,4]",
    "[[4,4],4,4,4]",
    "[7,7,7,7]",
    "[7,7,7]",
    "[]",
    "[3]",
    "[[[]]]",
    "[[]]",
    "[1,[2,[3,[4,[5,6,7]]]],8,9]",
    "[1,[2,[3,[4,[5,6,0]]]],8,9]",
];

fn parsed() -> Vec<DataGram> {
    PAIRS.iter().map(|l| DataGram::new(l).unwrap()).collect()
}

#[test]
fn packets_read() {
    let d = DataGram::new("[1,[2,30],[]]").unwrap();
    match d {
        DataGram::List(items) => {
            assert_eq!(items.len(), 3);
            assert!(matches!(items[0], DataGram::Int(1)));
            assert!(matches!(&items[1], DataGram::List(v) if v.len() == 2 && matches!(v[1], DataGram::Int(30))));
            assert!(matches!(&items[2], DataGram::List(v) if v.is_empty()));
        }
        _ => panic!("expected a list"),
    }
    assert!(matches!(DataGram::new("17"), Ok(DataGram::Int(17))));
    assert!(DataGram::new("[1,]").is_err());
    assert!(DataGram::new("[1").is_err());
    assert!(DataGram::new("[1]]").is_err());
    assert!(DataGram::new("").is_err());
    assert!(DataGram::new("[4294967296]").is_err());
    assert!(matches!(DataGram::new("4294967295"), Ok(DataGram::Int(4294967295))));
}

#[test]
fn right_order_indices() {
    let mut ps = parsed().into_iter();
    let mut pairs = Vec::new();
    let mut index = 1;
    while let (Some(l), Some(r)) = (ps.next(), ps.next()) {
        pairs.push(PacketPair::new(index, l, r));
        index += 1;
    }
    assert_eq!(ordered_index_sum(&pairs), 13);
}

#[test]
fn decoder_key_of_the_example() {
    let packets = parsed();
    let two = DataGram::new("[[2]]").unwrap();
    let six = DataGram::new("[[6]]").unwrap();
    let key = (packets_before(&packets, &two) + 1) * (packets_before(&packets, &six) + 2);
    assert_eq!(key, 140);
    assert_eq!(decoder_key(&packets), 140);
    assert_eq!(decoder_key(&Vec::new()), 2);
}
