use dicer::{calculate_dice_entities, DiceEntity, DiceRollResponse};

#[test]
fn dicer_test_calculate_dice_entities() {
    assert_eq!(
        calculate_dice_entities(vec![DiceEntity {
            count: 1,
            sides: 6,
            sign: '+',
            is_constant: false,
            value: 0,
        }]),
        DiceRollResponse {
            // this is RNG and different each time, but doesn't matter in test
            result: 0,
            minimum_result: 1,
            maximum_result: 6,
        }
    );

    assert_eq!(
        calculate_dice_entities(vec![
            DiceEntity {
                count: 1,
                sides: 6,
                sign: '+',
                is_constant: false,
                value: 0,
            },
            DiceEntity {
                count: 1,
                sides: 6,
                sign: '+',
                is_constant: false,
                value: 0,
            }
        ]),
        DiceRollResponse {
            // this is RNG and different each time, but doesn't matter in test
            result: 0,
            minimum_result: 2,
            maximum_result: 12,
        }
    );

    assert_eq!(
        calculate_dice_entities(vec![
            DiceEntity {
                count: 1,
                sides: 6,
                sign: '+',
                is_constant: false,
                value: 0,
            },
            DiceEntity {
                count: 1,
                sides: 6,
                sign: '-',
                is_constant: false,
                value: 0,
            }
        ]),
        DiceRollResponse {
            // this is RNG and different each time, but doesn't matter in test
            result: 0,
            minimum_result: -5,
            maximum_result: 5,
        }
    );

    assert_eq!(
        calculate_dice_entities(vec![
            DiceEntity {
                count: 1,
                sides: 20,
                sign: '+',
                is_constant: false,
                value: 0,
            },
            DiceEntity {
                count: 0,
                sides: 0,
                sign: '+',
                is_constant: true,
                value: 5,
            },
            DiceEntity {
                count: 0,
                sides: 0,
                sign: '-',
                is_constant: true,
                value: 2,
            },
        ]),
        DiceRollResponse {
            // this is RNG and different each time, but doesn't matter in test
            result: 0,
            minimum_result: 4,
            maximum_result: 23
        }
    );
}

#[test]
fn calculate_dice_entities_test_calculate_dice_entities() {
    assert_eq!(
        calculate_dice_entities(vec![DiceEntity {
            count: 1,
            sides: 6,
            sign: '+',
            is_constant: false,
            value: 0,
        }]),
        DiceRollResponse {
            // this is RNG and different each time, but doesn't matter in test
            result: 0,
            minimum_result: 1,
            maximum_result: 6,
        }
    );

    assert_eq!(
        calculate_dice_entities(vec![
            DiceEntity {
                count: 1,
                sides: 6,
                sign: '+',
                is_constant: false,
                value: 0,
            },
            DiceEntity {
                count: 1,
                sides: 6,
                sign: '+',
                is_constant: false,
                value: 0,
            }
        ]),
        DiceRollResponse {
            // this is RNG and different each time, but doesn't matter in test
            result: 0,
            minimum_result: 2,
            maximum_result: 12,
        }
    );

    assert_eq!(
        calculate_dice_entities(vec![
            DiceEntity {
                count: 1,
                sides: 6,
                sign: '+',
                is_constant: false,
                value: 0,
            },
            DiceEntity {
                count: 1,
                sides: 6,
                sign: '-',
                is_constant: false,
                value: 0,
            }
        ]),
        DiceRollResponse {
            // this is RNG and different each time, but doesn't matter in test
            result: 0,
            minimum_result: -5,
            maximum_result: 5,
        }
    );

    assert_eq!(
        calculate_dice_entities(vec![
            DiceEntity {
                count: 1,
                sides: 20,
                sign: '+',
                is_constant: false,
                value: 0,
            },
            DiceEntity {
                count: 0,
                sides: 0,
                sign: '+',
                is_constant: true,
                value: 5,
            },
            DiceEntity {
                count: 0,
                sides: 0,
                sign: '-',
                is_constant: true,
                value: 2,
            },
        ]),
        DiceRollResponse {
            // this is RNG and different each time, but doesn't matter in test
            result: 0,
            minimum_result: 4,
            maximum_result: 23
        }
    );
}

#[test]
fn test_single_die_total_stays_within_bounds() {
    // One d6 with a positive sign: minimum 1, maximum 6, and the realized
    // total lies within across repeated trials.
    for _ in 0..200 {
        let outcome = calculate_dice_entities(vec![DiceEntity {
            count: 1,
            sides: 6,
            sign: '+',
            is_constant: false,
            value: 0,
        }]);
        assert_eq!(outcome.minimum_result, 1);
        assert_eq!(outcome.maximum_result, 6);
        assert!(outcome.minimum_result <= outcome.result);
        assert!(outcome.result <= outcome.maximum_result);
    }
}

#[test]
fn test_d20_with_constants_bounds() {
    // 1d20 + 5 - 2: minimum 4, maximum 23.
    let outcome = calculate_dice_entities(vec![
        DiceEntity {
            count: 1,
            sides: 20,
            sign: '+',
            is_constant: false,
            value: 0,
        },
        DiceEntity {
            count: 0,
            sides: 0,
            sign: '+',
            is_constant: true,
            value: 5,
        },
        DiceEntity {
            count: 0,
            sides: 0,
            sign: '-',
            is_constant: true,
            value: 2,
        },
    ]);
    assert_eq!(outcome.minimum_result, 4);
    assert_eq!(outcome.maximum_result, 23);
    assert!(outcome.minimum_result <= outcome.result);
    assert!(outcome.result <= outcome.maximum_result);
}

#[test]
fn test_subtracted_die_moves_bounds_asymmetrically() {
    // Subtracting 2d4 lowers the minimum by the dice maximum and the maximum
    // by the dice minimum.
    let outcome = calculate_dice_entities(vec![
        DiceEntity {
            count: 0,
            sides: 0,
            sign: '+',
            is_constant: true,
            value: 10,
        },
        DiceEntity {
            count: 2,
            sides: 4,
            sign: '-',
            is_constant: false,
            value: 0,
        },
    ]);
    assert_eq!(outcome.minimum_result, 2);
    assert_eq!(outcome.maximum_result, 8);
    assert!(outcome.minimum_result <= outcome.result);
    assert!(outcome.result <= outcome.maximum_result);
}

#[test]
fn test_constants_only_are_deterministic() {
    let outcome = calculate_dice_entities(vec![
        DiceEntity {
            count: 0,
            sides: 0,
            sign: '+',
            is_constant: true,
            value: 7,
        },
        DiceEntity {
            count: 0,
            sides: 0,
            sign: '-',
            is_constant: true,
            value: 3,
        },
    ]);
    assert_eq!(outcome.result, 4);
    assert_eq!(outcome.minimum_result, 4);
    assert_eq!(outcome.maximum_result, 4);
}

#[test]
fn test_empty_entity_list_evaluates_to_zero() {
    let outcome = calculate_dice_entities(Vec::new());
    assert_eq!(outcome.result, 0);
    assert_eq!(outcome.minimum_result, 0);
    assert_eq!(outcome.maximum_result, 0);
}
