use dicer::split_dice_roll;

#[test]
fn dicer_test_split_dice_roll() {
    assert_eq!(split_dice_roll("1d6"), vec!["+1d6"]);

    assert_eq!(split_dice_roll("2d8-3"), vec!["+2d8", "-3"]);

    assert_eq!(split_dice_roll("2+1d20-1d4"), vec!["+2", "+1d20", "-1d4"]);

    assert_eq!(
        split_dice_roll("1d20+2+3+1d6+1d6-2"),
        vec!["+1d20", "+2", "+3", "+1d6", "+1d6", "-2",]
    );

    assert_eq!(
        split_dice_roll("-1+2+3-4-5+6-7"),
        vec!["-1", "+2", "+3", "-4", "-5", "+6", "-7"]
    );
}

#[test]
fn split_dice_roll_test_split_dice_roll() {
    assert_eq!(split_dice_roll("1d6"), vec!["+1d6"]);

    assert_eq!(split_dice_roll("2d8-3"), vec!["+2d8", "-3"]);

    assert_eq!(split_dice_roll("2+1d20-1d4"), vec!["+2", "+1d20", "-1d4"]);

    assert_eq!(
        split_dice_roll("1d20+2+3+1d6+1d6-2"),
        vec!["+1d20", "+2", "+3", "+1d6", "+1d6", "-2",]
    );

    assert_eq!(
        split_dice_roll("-1+2+3-4-5+6-7"),
        vec!["-1", "+2", "+3", "-4", "-5", "+6", "-7"]
    );
}

#[test]
fn test_split_empty_input() {
    assert_eq!(split_dice_roll(""), Vec::<String>::new());
}

#[test]
fn test_split_trailing_sign_without_term() {
    // A sign with nothing after it marks no term of its own.
    assert_eq!(split_dice_roll("2d6+"), vec!["+2d6"]);
}
