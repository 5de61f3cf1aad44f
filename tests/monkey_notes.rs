use aoc2022::monkey_notes::parse_input;
use aoc2022::monkeys::MonkeyOpArg;

const NOTES: &str = "Monkey 0:
        Starting items: 79, 98
        Operation: new = old * 19
        Test: divisible by 23
          If true: throw to monkey 2
          If false: throw to monkey 3

      Monkey 1:
        Starting items: 54, 65, 75, 74
        Operation: new = old + 6
        Test: divisible by 19
          If true: throw to monkey 2
          If false: throw to monkey 0

      Monkey 2:
        Starting items: 79, 60, 97
        Operation: new = old * old
        Test: divisible by 13
          If true: throw to monkey 1
          If false: throw to monkey 3

      Monkey 3:
        Starting items: 74
        Operation: new = old + 3
        Test: divisible by 17
          If true: throw to monkey 0
          If false: throw to monkey 1";

#[test]
fn day11_parse_monkeys_test() {
    let res = parse_input(NOTES);
    println!("res={:?}", res);
    assert_eq!(res.is_ok(), true);
    let monkeys = res.unwrap();
    assert_eq!(monkeys.len(), 4);
}

#[test]
fn parser_parse_monkeys_test() {
    let res = parse_input(NOTES);
    println!("res={:?}", res);
    assert_eq!(res.is_ok(), true);
    let monkeys = res.unwrap();
    assert_eq!(monkeys.len(), 4);
}

#[test]
fn parsed_fields() {
    let monkeys = parse_input(NOTES).unwrap();
    assert_eq!(monkeys[1].id, 1);
    assert_eq!(monkeys[1].items, vec![54, 65, 75, 74]);
    assert_eq!(monkeys[1].operation.operator, "+");
    assert_eq!(monkeys[1].operation.arg, MonkeyOpArg::IntArg(6));
    assert_eq!(monkeys[2].operation.arg, MonkeyOpArg::Old);
    assert_eq!(monkeys[2].test.param, 13);
    assert_eq!(monkeys[2].test.truthy_target, 1);
    assert_eq!(monkeys[2].test.falsy_target, 3);
}

#[test]
fn bad_notes() {
    assert!(parse_input("Monkey 0:\n Starting items: 1\n Operation: new = old - 1").is_err());
    assert!(parse_input("Monkey x: Starting items: Operation: new = old + 1 Test: divisible by 2 If true: throw to monkey 0 If false: throw to monkey 0").is_err());
    let one = parse_input("Monkey 0: Starting items: Operation: new = old + 1 Test: divisible by 2 If true: throw to monkey 0 If false: throw to monkey 0").unwrap();
    assert!(one[0].items.is_empty());
    assert_eq!(parse_input("").unwrap().len(), 0);
}

const ONE_MONKEY: &str = "Monkey 0:
        Starting items: 79, 98
        Operation: new = old + 19
        Test: divisible by 23
          If true: throw to monkey 2
          If false: throw to monkey 3";

#[test]
fn day11_parse_monkey_test() {
    let res = parse_input(ONE_MONKEY);
    println!("res={:?}", res);
    assert_eq!(res.is_ok(), true);
}

#[test]
fn parser_parse_monkey_test() {
    let res = parse_input(ONE_MONKEY);
    println!("res={:?}", res);
    assert_eq!(res.is_ok(), true);
    let m = &res.unwrap()[0];
    assert_eq!(m.inspected_items, 0);
    assert_eq!(m.items, vec![79, 98]);
}
