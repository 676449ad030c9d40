use dicer::{normalize_dice_roll, parse_dice_roll, roll_dice, split_dice_roll, ParseError};

#[test]
fn test_roll_dice_bounds() {
    for _ in 0..100 {
        let outcome = roll_dice("2d6+3").unwrap();
        assert_eq!(outcome.minimum_result, 5);
        assert_eq!(outcome.maximum_result, 15);
        assert!(outcome.minimum_result <= outcome.result);
        assert!(outcome.result <= outcome.maximum_result);
    }
}

#[test]
fn test_roll_dice_normalizes_first() {
    let outcome = roll_dice("D20 + 2d4 - 1D6").unwrap();
    // 1d20+2d4-1d6: minimum 1+2-6, maximum 20+8-1.
    assert_eq!(outcome.minimum_result, -3);
    assert_eq!(outcome.maximum_result, 27);
    assert!(outcome.minimum_result <= outcome.result);
    assert!(outcome.result <= outcome.maximum_result);
}

#[test]
fn test_roll_dice_constant_only() {
    let outcome = roll_dice("5").unwrap();
    assert_eq!(outcome.result, 5);
    assert_eq!(outcome.minimum_result, 5);
    assert_eq!(outcome.maximum_result, 5);
}

#[test]
fn test_roll_dice_empty_input() {
    let outcome = roll_dice("").unwrap();
    assert_eq!(outcome.result, 0);
    assert_eq!(outcome.minimum_result, 0);
    assert_eq!(outcome.maximum_result, 0);
}

#[test]
fn test_roll_dice_errors() {
    let err = roll_dice("2d6$+3").unwrap_err();
    assert!(matches!(err, ParseError::InvalidCharacter { .. }));
    assert_eq!(err.message(), "Invalid input: 2d6$+3");

    let err = roll_dice("1d0").unwrap_err();
    assert!(matches!(err, ParseError::InvalidDiceType { .. }));
    assert_eq!(err.message(), "Invalid dice type: 1d0");

    // Normalization lets a digit run that fuses two dice terms through, and
    // the parser then rejects the fused term.
    let err = roll_dice("1d6 2d4").unwrap_err();
    assert!(matches!(err, ParseError::MalformedTerm { .. }));
    assert_eq!(err.message(), "Malformed term: +1d62d4");
}

#[test]
fn test_roll_dice_rejects_unrepresentable_bounds() {
    // 4294967295d4294967295 parses, but its maximum exceeds the 64-bit
    // accumulators, so the whole expression is refused.
    let err = roll_dice("4294967295d4294967295").unwrap_err();
    match err {
        ParseError::MalformedTerm { term } => assert_eq!(term, "4294967295d4294967295"),
        _ => panic!("expected a malformed-term error"),
    }
    // A large but representable expression still rolls.
    let outcome = roll_dice("1d4294967295").unwrap();
    assert_eq!(outcome.minimum_result, 1);
    assert_eq!(outcome.maximum_result, 4294967295);
    assert!(outcome.minimum_result <= outcome.result);
    assert!(outcome.result <= outcome.maximum_result);
}

#[test]
fn test_pipeline_round_trip_is_deterministic() {
    // Parsing the terms of one normalized expression twice gives the same
    // entity list.
    let inputs = ["1d20+2+3+1d6+1d6-2", "2d 6 + 3 - 1", "D8-2"];
    for input in inputs {
        let normalized = normalize_dice_roll(input).unwrap();
        let first = parse_dice_roll(split_dice_roll(&normalized)).unwrap();
        let second = parse_dice_roll(split_dice_roll(&normalized)).unwrap();
        assert_eq!(first, second);
    }
}
