//! Unit tests for the monkey machinery: inspections, tests, throws, and a
//! hand-checked first turn of the fixed arena.
use aoc2022::day11::{create_monkeys, Monkey, Operation, MONKEY_MODULUS};

#[test]
fn monkey_inspect_divides_by_three() {
    let mut m = Monkey::new_rc(vec![10], Operation::Mul(17), 2);
    assert!(m.inspect());
    assert_eq!(m.items, vec![56]); // 10 * 17 = 170, 170 / 3 = 56
    assert_eq!(m.inspections, 1);
    assert!(m.test());
}

#[test]
fn monkey_inspect_p2_reduces_modulo() {
    let mut m = Monkey::new_rc(vec![4_000_000], Operation::Square, 5);
    assert!(m.inspect_p2());
    assert_eq!(m.items, vec![16_000_000_000_000 % MONKEY_MODULUS]);
    assert_eq!(m.inspections, 1);
}

#[test]
fn monkey_inspect_overflow_is_reported() {
    let mut m = Monkey::new_rc(vec![u64::MAX], Operation::Square, 2);
    assert!(!m.inspect());
    assert_eq!(m.items, vec![u64::MAX]);
    assert_eq!(m.inspections, 0);
}

#[test]
fn monkey_catch_item_appends() {
    let mut m = Monkey::new_rc(vec![1, 2], Operation::Add(1), 3);
    m.catch_item(9);
    assert_eq!(m.items, vec![1, 2, 9]);
}

#[test]
fn monkey_destinations_are_wired() {
    let monkeys = create_monkeys();
    assert_eq!(monkeys.len(), 8);
    assert_eq!(monkeys[0].true_dest, Some(1));
    assert_eq!(monkeys[0].false_dest, Some(6));
    assert_eq!(monkeys[7].true_dest, Some(4));
    assert_eq!(monkeys[7].false_dest, Some(5));
    assert_eq!(monkeys[4].operation, Operation::Square);
    assert_eq!(monkeys[2].divisor, 19);
}

#[test]
fn monkey_first_turn_throws_by_hand() {
    let mut monkeys = create_monkeys();
    // Monkey 0 holds 83, 62, 93: times 17 and divided by 3 these become
    // 470 (even, to monkey 1), 351 and 527 (odd, to monkey 6).
    assert!(Monkey::handle_round(&mut monkeys, 0));
    assert_eq!(monkeys[0].items, Vec::<u64>::new());
    assert_eq!(monkeys[0].inspections, 3);
    assert_eq!(monkeys[1].items, vec![90, 55, 470]);
    assert_eq!(monkeys[6].items, vec![74, 351, 527]);
}

#[test]
fn monkey_single_item_flow() {
    let mut monkeys = create_monkeys();
    // Monkey 6 holds only 74: plus 4 is 78, divided by 3 is 26, which 7
    // does not divide, so it goes to monkey 2.
    assert!(Monkey::handle_next_item(&mut monkeys, 6));
    assert_eq!(monkeys[6].items, Vec::<u64>::new());
    assert_eq!(
        monkeys[2].items,
        vec![91, 78, 80, 97, 79, 88, 26]
    );
}
