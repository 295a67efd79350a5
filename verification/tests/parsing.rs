use diceroll::{parse_request, Op};

#[test]
fn accepts_plain_notation() {
    let req = parse_request("2d4").expect("2d4 is valid notation");
    assert_eq!(req.dice_count, 2);
    assert_eq!(req.die_size, 4);
    assert_eq!(req.operator, Op::Add);
    assert_eq!(req.addend, 0);
}

#[test]
fn accepts_signed_notation() {
    let req = parse_request("3d6+2").expect("3d6+2 is valid notation");
    assert_eq!(req.dice_count, 3);
    assert_eq!(req.die_size, 6);
    assert_eq!(req.operator, Op::Add);
    assert_eq!(req.addend, 2);

    let req = parse_request("123d456-789").expect("123d456-789 is valid notation");
    assert_eq!(req.dice_count, 123);
    assert_eq!(req.die_size, 456);
    assert_eq!(req.operator, Op::Subtract);
    assert_eq!(req.addend, 789);
}

#[test]
fn accepts_uppercase_separator() {
    let lower = parse_request("3d6").expect("3d6 is valid notation");
    let upper = parse_request("3D6").expect("3D6 is valid notation");
    assert_eq!(upper.dice_count, lower.dice_count);
    assert_eq!(upper.die_size, lower.die_size);
    assert_eq!(upper.operator, lower.operator);
    assert_eq!(upper.addend, lower.addend);
}

#[test]
fn accepts_zero_dice() {
    let req = parse_request("0d6").expect("0d6 is valid notation");
    assert_eq!(req.dice_count, 0);
    assert_eq!(req.die_size, 6);
}

#[test]
fn rejects_missing_pieces() {
    assert!(parse_request("").is_none());
    assert!(parse_request("d6").is_none());
    assert!(parse_request("3d").is_none());
    assert!(parse_request("d").is_none());
    assert!(parse_request("3").is_none());
    assert!(parse_request("3d6+").is_none());
    assert!(parse_request("3d6-").is_none());
}

#[test]
fn rejects_whitespace() {
    assert!(parse_request(" 3d6").is_none());
    assert!(parse_request("3d6 ").is_none());
    assert!(parse_request("3 d6").is_none());
    assert!(parse_request("3d 6").is_none());
    assert!(parse_request("3d6 +2").is_none());
}

#[test]
fn rejects_stray_characters() {
    assert!(parse_request("3x6").is_none());
    assert!(parse_request("3d6+2x").is_none());
    assert!(parse_request("x3d6").is_none());
    assert!(parse_request("3d6++2").is_none());
    assert!(parse_request("3d6+-2").is_none());
    assert!(parse_request("+3d6").is_none());
    assert!(parse_request("3d6.5").is_none());
    assert!(parse_request("3dd6").is_none());
}

#[test]
fn rejects_zero_sided_die() {
    assert!(parse_request("1d0").is_none());
    assert!(parse_request("0d0").is_none());
}

#[test]
fn rejects_out_of_range_numbers() {
    assert!(parse_request("10001d6").is_none());
    assert!(parse_request("1d1000000001").is_none());
    assert!(parse_request("1d6+1000000000000001").is_none());
    assert!(parse_request("99999999999999999999d6").is_none());
}

#[test]
fn accepts_boundary_numbers() {
    assert!(parse_request("10000d6").is_some());
    assert!(parse_request("1d1000000000").is_some());
    assert!(parse_request("1d6+1000000000000000").is_some());
    assert!(parse_request("0d1").is_some());
}
