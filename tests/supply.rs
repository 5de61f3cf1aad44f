use aoc2022::supply::{MoveCmd, Stack, SupplyStacks};

fn drawing() -> Vec<String> {
    vec!["    [D]    ".to_string(), "[N] [C]    ".to_string(), "[Z] [M] [P]".to_string(), " 1   2   3 ".to_string()]
}

#[test]
fn stacks_read_from_drawing() {
    let ss = SupplyStacks::from_input(&drawing()).unwrap();
    assert_eq!(ss.stacks.len(), 3);
    assert_eq!(ss.stacks[0].crates, vec!['Z', 'N']);
    assert_eq!(ss.stacks[1].crates, vec!['M', 'C', 'D']);
    assert_eq!(ss.stacks[2].crates, vec!['P']);
    assert_eq!(ss.stacks[2].id, 3);
    assert_eq!(ss.top_of_stacks(), "NDP");
}

#[test]
fn crane_moves_keep_order() {
    let mut ss = SupplyStacks::from_input(&drawing()).unwrap();
    for l in ["move 1 from 2 to 1", "move 3 from 1 to 3", "move 2 from 2 to 1", "move 1 from 1 to 2"] {
        let cmd = MoveCmd::from_input(&l.to_string()).unwrap();
        assert_eq!(ss.apply(&cmd), Some(()));
    }
    assert_eq!(ss.top_of_stacks(), "MCD");
}

#[test]
fn failed_moves() {
    let mut ss = SupplyStacks::from_input(&drawing()).unwrap();
    let too_many = MoveCmd { count: 5, source: 3, destination: 1 };
    assert_eq!(ss.apply(&too_many), None);
    assert!(ss.stacks[2].crates.is_empty());
    let unknown = MoveCmd { count: 1, source: 9, destination: 1 };
    assert_eq!(ss.apply(&unknown), None);
    let lost = MoveCmd { count: 1, source: 1, destination: 9 };
    assert_eq!(ss.apply(&lost), None);
    assert_eq!(ss.stacks[0].crates, vec!['Z']);
}

#[test]
fn bad_inputs() {
    assert!(MoveCmd::from_input(&"move 1 from 2".to_string()).is_err());
    assert!(MoveCmd::from_input(&"move x from 2 to 1".to_string()).is_err());
    let cmd = MoveCmd::from_input(&"move 10 from 2 to 1".to_string()).unwrap();
    assert_eq!((cmd.count, cmd.source, cmd.destination), (10, 2, 1));
    assert!(SupplyStacks::from_input(&vec![" 1   x ".to_string()]).is_err());
    assert!(SupplyStacks::from_input(&vec![" 2   1 ".to_string()]).is_err());
}

#[test]
fn stack_pieces() {
    let mut s = Stack::new(1);
    s.push('a');
    s.push('b');
    s.push('c');
    assert_eq!(s.pop_n(2), Some(vec!['c', 'b']));
    assert_eq!(s.crates, vec!['a']);
    s.push_n(vec!['c', 'b']);
    assert_eq!(s.crates, vec!['a', 'b', 'c']);
    assert_eq!(s.pop(), Some('c'));
    assert_eq!(s.pop_n(0), Some(vec![]));
    assert_eq!(s.pop_n(3), None);
    assert!(s.crates.is_empty());
    assert_eq!(s.pop(), None);
}
