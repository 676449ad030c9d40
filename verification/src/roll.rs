//! The orchestrator: one call that runs the whole pipeline.

use vstd::prelude::*;

use crate::entity::{entity_wf, DiceEntity};
use crate::errors::ParseError;
use crate::evaluate::{
    calculate_dice_entities, entities_weight_within_limit, entity_evaluable, sum_max, sum_min,
    sum_weight, DiceRollResponse,
};
use crate::normalize::{normalize_dice_roll, normalize_ok, normalize_spec, seq_all_allowed};
use crate::parse::{lemma_parse_terms_wf, parse_dice_roll, parse_terms_spec};
use crate::segment::{split_dice_roll, split_spec};

verus! {

/// Rolls a dice expression such as `"2d6+3-1d4"`: normalizes it, splits it
/// into signed terms, parses each term, and evaluates the entities. Fails
/// exactly when one of the stages rejects the input, or when the expression's
/// bounds would not fit the evaluator's 64-bit accumulators.
pub fn roll_dice(input: &str) -> (r: Result<DiceRollResponse, ParseError>)
    ensures
        !seq_all_allowed(input@) ==> (r matches Err(e) && e is InvalidCharacter && e.payload()
            == input@),
        seq_all_allowed(input@) && !normalize_ok(input@) ==> (r matches Err(e)
            && e is InvalidDiceType && e.payload() == input@),
        normalize_ok(input@) ==> ({
            let parsed = parse_terms_spec(split_spec(normalize_spec(input@)));
            &&& (parsed matches Err(t) ==> r matches Err(e) && e is MalformedTerm && e.payload()
                == t)
            &&& (parsed matches Ok(es) ==> {
                if sum_weight(es) <= i64::MAX {
                    r matches Ok(o) && o.minimum_result == sum_min(es) && o.maximum_result
                        == sum_max(es) && o.minimum_result <= o.result <= o.maximum_result
                } else {
                    r matches Err(e) && e is MalformedTerm && e.payload() == normalize_spec(input@)
                }
            })
        }),
{
    let normalized = match normalize_dice_roll(input) {
        Ok(s) => s,
        Err(e) => {
            return Err(e);
        },
    };
    let terms = split_dice_roll(normalized.as_str());
    let entities = match parse_dice_roll(terms) {
        Ok(v) => v,
        Err(e) => {
            return Err(e);
        },
    };
    proof {
        lemma_parse_terms_wf(split_spec(normalized@));
        assert forall|i: int| 0 <= i < entities@.len() implies entity_evaluable(
            #[trigger] entities@[i],
        ) by {
            assert(entity_wf(entities@[i]));
        }
    }
    if !entities_weight_within_limit(&entities) {
        return Err(ParseError::MalformedTerm { term: normalized });
    }
    Ok(calculate_dice_entities(entities))
}

/// The parser is deterministic: segmenting and parsing one normalized
/// expression a second time yields the same entity list.
pub proof fn lemma_parser_deterministic(
    normalized: Seq<char>,
    a: Seq<DiceEntity>,
    b: Seq<DiceEntity>,
)
    requires
        parse_terms_spec(split_spec(normalized)) == Ok::<Seq<DiceEntity>, Seq<char>>(a),
        parse_terms_spec(split_spec(normalized)) == Ok::<Seq<DiceEntity>, Seq<char>>(b),
    ensures
        a == b,
{
}

} // verus!
