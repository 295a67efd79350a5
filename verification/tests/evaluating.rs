use diceroll::{aggregate, evaluate, roll_dice, sort_rolls, sum_rolls, Op, RollRequest};

#[test]
fn one_die_with_one_side() {
    let o = evaluate("1d1").expect("1d1 is valid notation");
    assert_eq!(o.individual_rolls, vec![1]);
    assert_eq!(o.operator, Op::Add);
    assert_eq!(o.addend, 0);
    assert_eq!(o.total, 1);
}

#[test]
fn zero_dice_give_empty_rolls() {
    let o = evaluate("0d6").expect("0d6 is valid notation");
    assert_eq!(o.individual_rolls, Vec::<u64>::new());
    assert_eq!(o.total, 0);

    let o = evaluate("0d6+5").expect("0d6+5 is valid notation");
    assert_eq!(o.individual_rolls, Vec::<u64>::new());
    assert_eq!(o.total, 5);
}

#[test]
fn two_dice_with_addend() {
    let o = evaluate("2d6+3").expect("2d6+3 is valid notation");
    assert_eq!(o.individual_rolls.len(), 2);
    for &r in &o.individual_rolls {
        assert!((1..=6).contains(&r));
    }
    let sum: u64 = o.individual_rolls.iter().sum();
    assert_eq!(o.total, sum + 3);
}

#[test]
fn subtraction_wraps_like_unsigned_arithmetic() {
    let o = evaluate("2d6-100").expect("2d6-100 is valid notation");
    let sum: u64 = o.individual_rolls.iter().sum();
    assert_eq!(o.operator, Op::Subtract);
    assert_eq!(o.addend, 100);
    assert_eq!(o.total, sum.wrapping_sub(100));
}

#[test]
fn subtraction_without_deficit_stays_exact() {
    let o = evaluate("3d6-1").expect("3d6-1 is valid notation");
    let sum: u64 = o.individual_rolls.iter().sum();
    assert!(sum >= 3);
    assert_eq!(o.total, sum - 1);
}

#[test]
fn zero_dice_with_subtraction_wrap() {
    let o = evaluate("0d1-1000000000000000").expect("0d1-1000000000000000 is valid notation");
    assert_eq!(o.total, 0u64.wrapping_sub(1_000_000_000_000_000));
}

#[test]
fn many_one_sided_dice_sum_exactly() {
    let o = evaluate("10000d1").expect("10000d1 is valid notation");
    assert_eq!(o.individual_rolls.len(), 10000);
    assert!(o.individual_rolls.iter().all(|&r| r == 1));
    assert_eq!(o.total, 10000);
}

#[test]
fn largest_addend_is_applied_exactly() {
    let o = evaluate("1d1+1000000000000000").expect("the largest addend is accepted");
    assert_eq!(o.individual_rolls, vec![1]);
    assert_eq!(o.total, 1 + 1_000_000_000_000_000);
}

#[test]
fn failure_carries_original_text() {
    let f = evaluate("d6").expect_err("d6 is missing its dice count");
    assert_eq!(f.input, "d6");

    let f = evaluate("not a roll").expect_err("embedded whitespace is rejected");
    assert_eq!(f.input, "not a roll");

    let f = evaluate("3X6").expect_err("X is not the dice separator");
    assert_eq!(f.input, "3X6");
}

#[test]
fn uppercase_separator_rolls_like_lowercase() {
    let o = evaluate("3D6").expect("3D6 is valid notation");
    assert_eq!(o.individual_rolls.len(), 3);
    for &r in &o.individual_rolls {
        assert!((1..=6).contains(&r));
    }
}

#[test]
fn rolls_are_reported_in_ascending_order() {
    let o = evaluate("100d6").expect("100d6 is valid notation");
    assert_eq!(o.individual_rolls.len(), 100);
    for w in o.individual_rolls.windows(2) {
        assert!(w[0] <= w[1]);
    }
}

#[test]
fn samples_vary_across_draws() {
    let o = evaluate("200d6").expect("200d6 is valid notation");
    let first = o.individual_rolls[0];
    let last = *o.individual_rolls.last().unwrap();
    assert!(first != last, "two hundred uniform draws from six values never all agree");
    for &r in &o.individual_rolls {
        assert!((1..=6).contains(&r));
    }
}

#[test]
fn roll_dice_respects_count_and_range() {
    let rolls = roll_dice(50, 20);
    assert_eq!(rolls.len(), 50);
    for &r in &rolls {
        assert!((1..=20).contains(&r));
    }
}

#[test]
fn sort_rolls_orders_values() {
    assert_eq!(sort_rolls(vec![5, 3, 3, 1]), vec![1, 3, 3, 5]);
    assert_eq!(sort_rolls(Vec::new()), Vec::<u64>::new());
}

#[test]
fn sum_rolls_adds_values() {
    assert_eq!(sum_rolls(&vec![1, 2, 3], 6), 6);
    assert_eq!(sum_rolls(&Vec::new(), 6), 0);
}

#[test]
fn aggregate_is_deterministic_in_its_arguments() {
    let req = RollRequest { dice_count: 3, die_size: 6, operator: Op::Add, addend: 2 };
    let o = aggregate(&req, vec![4, 2, 6]);
    assert_eq!(o.individual_rolls, vec![2, 4, 6]);
    assert_eq!(o.operator, Op::Add);
    assert_eq!(o.addend, 2);
    assert_eq!(o.total, 14);

    let req = RollRequest { dice_count: 2, die_size: 4, operator: Op::Subtract, addend: 9 };
    let o = aggregate(&req, vec![3, 1]);
    assert_eq!(o.individual_rolls, vec![1, 3]);
    assert_eq!(o.total, 4u64.wrapping_sub(9));
}
