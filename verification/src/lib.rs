//! A verified dice-expression roller.
//!
//! A human-typed expression such as `"2d6 + 3 - 1d4"` runs through a four-stage
//! pipeline: normalization into a canonical lowercase form with explicit dice
//! counts, segmentation into signed textual terms, parsing of each term into a
//! structured entity, and evaluation of the entity list into a realized total
//! together with the attainable minimum and maximum.

mod chars;
mod entity;
mod errors;
mod evaluate;
mod normalize;
mod parse;
mod roll;
mod segment;
mod text;

pub use chars::{is_allowed_char, is_digit_char, is_dice_marker, is_op_char, digit_val, digits_val, all_digits};
pub use errors::{ParseError, roll_error};
pub use normalize::{
    canonical_chars, is_normalized, lemma_normalize_idempotent, lemma_normalize_output_normalized,
    lemma_normalized_fixed, marker_has_count, marker_has_sides, normalize_dice_roll, normalize_ok,
    normalize_spec, seq_all_allowed,
};
pub use entity::{DiceEntity, entity_wf};
pub use evaluate::{
    DiceRollResponse, calculate_dice_entities, entities_weight_within_limit, entity_evaluable,
    entity_max, entity_min, entity_weight, sum_max, sum_min, sum_weight,
};
pub use parse::{parse_dice_roll, parse_term_spec, parse_terms_spec};
pub use roll::{lemma_parser_deterministic, roll_dice};
pub use segment::{split_dice_roll, split_spec};
