use dicer::normalize_dice_roll;

#[test]
fn dicer_test_normalize_dice_roll() {
    // Test case with multiple dice rolls
    assert_eq!(
        normalize_dice_roll("3d6+2+1d6-1-1d8+3").unwrap(),
        String::from("3d6+2+1d6-1-1d8+3")
    );
    // Test case with uppercase letters
    assert_eq!(
        normalize_dice_roll("1D20 + 2d4 - 1D6").unwrap(),
        String::from("1d20+2d4-1d6")
    );
    // Test case with no modifiers
    assert_eq!(normalize_dice_roll("2d10-").unwrap(), String::from("2d10"));
    // Test case with whitespace characters
    assert_eq!(
        normalize_dice_roll("2d 6 + 3 - 1").unwrap(),
        String::from("2d6+3-1")
    );
    // Test case with only negative modifiers
    assert_eq!(normalize_dice_roll("1d8-2-3").unwrap(), String::from("1d8-2-3"));
    // Test case with only positive modifiers
    assert_eq!(normalize_dice_roll("1d8+2+3").unwrap(), String::from("1d8+2+3"));

    // Test case with invalid input
    let err = normalize_dice_roll("not a valid dice roll").unwrap_err();
    assert_eq!(err.message(), "Invalid input: not a valid dice roll");
    // Test case with no sides on the dice
    let err = normalize_dice_roll("1d+4").unwrap_err();
    assert_eq!(err.message(), "Invalid dice type: 1d+4");
    // Test case with zero-sided dice
    let err = normalize_dice_roll("1d0").unwrap_err();
    assert_eq!(err.message(), "Invalid dice type: 1d0");
    // Test case with invalid character
    let err = normalize_dice_roll("2d6$+3").unwrap_err();
    assert_eq!(err.message(), String::from("Invalid input: 2d6$+3"));
}

#[test]
fn lib_test_normalize_dice_roll() {
    // Test case with multiple dice rolls
    assert_eq!(
        normalize_dice_roll("3d6+2+1d6-1-1d8+3").unwrap(),
        String::from("3d6+2+1d6-1-1d8+3")
    );
    // Test case with uppercase letters
    assert_eq!(
        normalize_dice_roll("1D20 + 2d4 - 1D6").unwrap(),
        String::from("1d20+2d4-1d6")
    );
    // Test case with no modifiers
    assert_eq!(normalize_dice_roll("2d10").unwrap(), String::from("2d10"));
    // Test case with whitespace characters
    assert_eq!(
        normalize_dice_roll("2d 6 + 3 - 1").unwrap(),
        String::from("2d6+3-1")
    );
    // Test case with only negative modifiers
    assert_eq!(normalize_dice_roll("1d8-2-3").unwrap(), String::from("1d8-2-3"));
    // Test case with only positive modifiers
    assert_eq!(normalize_dice_roll("1d8+2+3").unwrap(), String::from("1d8+2+3"));

    // Test case with invalid input
    let err = normalize_dice_roll("not a valid dice roll").unwrap_err();
    assert_eq!(err.message(), "Invalid input: not a valid dice roll");
}

#[test]
fn test_normalize_implicit_count() {
    assert_eq!(normalize_dice_roll("d6+3").unwrap(), String::from("1d6+3"));
    assert_eq!(normalize_dice_roll("D8").unwrap(), String::from("1d8"));
    assert_eq!(normalize_dice_roll("2+d4").unwrap(), String::from("2+1d4"));
}

#[test]
fn test_normalize_rejects_marker_without_sides() {
    let err = normalize_dice_roll("2d").unwrap_err();
    assert_eq!(err.message(), "Invalid dice type: 2d");
    let err = normalize_dice_roll("1d6+2d").unwrap_err();
    assert_eq!(err.message(), "Invalid dice type: 1d6+2d");
    let err = normalize_dice_roll("1d06").unwrap_err();
    assert_eq!(err.message(), "Invalid dice type: 1d06");
}

#[test]
fn test_normalize_empty_and_space_only() {
    assert_eq!(normalize_dice_roll("").unwrap(), String::from(""));
    assert_eq!(normalize_dice_roll("   ").unwrap(), String::from(""));
}

#[test]
fn test_normalize_idempotent_on_own_output() {
    let inputs = [
        "1D20 + 2d4 - 1D6",
        "2d10-",
        "d6+3",
        "2d 6 + 3 - 1",
        "3d6+2+1d6-1-1d8+3",
        "",
        "-1+2+3-4-5+6-7",
    ];
    for input in inputs {
        let once = normalize_dice_roll(input).unwrap();
        let twice = normalize_dice_roll(&once).unwrap();
        assert_eq!(twice, once);
    }
}
