//! Stage four of the pipeline: evaluation.
//!
//! Each entity adds or subtracts its contribution. A constant moves total,
//! minimum and maximum alike. A dice term draws its dice for the total, while
//! the bounds are deterministic: adding `count` dice of `sides` sides raises
//! the maximum by `count * sides` and the minimum by `count`; subtracting
//! them lowers the minimum by `count * sides` and the maximum by `count` —
//! the bounds never depend on the realized draw.

use vstd::prelude::*;

use rand::Rng;

use crate::chars::is_op_char;
use crate::entity::DiceEntity;

verus! {

/// The outcome of evaluating an entity list.
#[derive(Debug)]
pub struct DiceRollResponse {
    /// result of the roll
    pub result: i64,
    /// minimum value to get from this roll
    pub minimum_result: i64,
    /// maximum value to get from this roll
    pub maximum_result: i64,
}

impl PartialEq for DiceRollResponse {
    /// Two outcomes are equal when their deterministic bounds agree; the
    /// realized total is a random draw and takes no part.
    fn eq(&self, other: &Self) -> (r: bool) {
        self.minimum_result == other.minimum_result && self.maximum_result == other.maximum_result
    }
}

impl vstd::std_specs::cmp::PartialEqSpecImpl for DiceRollResponse {
    open spec fn obeys_eq_spec() -> bool {
        true
    }

    open spec fn eq_spec(&self, other: &Self) -> bool {
        self.minimum_result == other.minimum_result && self.maximum_result == other.maximum_result
    }
}

/// What evaluation needs of an entity: an operator sign, and at least one
/// side on each die so a draw is possible.
pub open spec fn entity_evaluable(e: DiceEntity) -> bool {
    is_op_char(e.sign) && (!e.is_constant ==> e.sides >= 1)
}

/// The least total an entity can contribute.
pub open spec fn entity_min(e: DiceEntity) -> int {
    if e.is_constant {
        if e.sign == '+' {
            e.value as int
        } else {
            -(e.value as int)
        }
    } else {
        if e.sign == '+' {
            e.count as int
        } else {
            -((e.count as int) * (e.sides as int))
        }
    }
}

/// The greatest total an entity can contribute.
pub open spec fn entity_max(e: DiceEntity) -> int {
    if e.is_constant {
        if e.sign == '+' {
            e.value as int
        } else {
            -(e.value as int)
        }
    } else {
        if e.sign == '+' {
            (e.count as int) * (e.sides as int)
        } else {
            -(e.count as int)
        }
    }
}

/// The magnitude bound of an entity's contribution, whatever its sign.
pub open spec fn entity_weight(e: DiceEntity) -> int {
    if e.is_constant {
        e.value as int
    } else {
        (e.count as int) * (e.sides as int)
    }
}

/// The least attainable total of an entity list.
pub open spec fn sum_min(s: Seq<DiceEntity>) -> int
    decreases s.len(),
{
    if s.len() == 0 {
        0
    } else {
        sum_min(s.drop_last()) + entity_min(s.last())
    }
}

/// The greatest attainable total of an entity list.
pub open spec fn sum_max(s: Seq<DiceEntity>) -> int
    decreases s.len(),
{
    if s.len() == 0 {
        0
    } else {
        sum_max(s.drop_last()) + entity_max(s.last())
    }
}

/// The summed magnitude bound of an entity list.
pub open spec fn sum_weight(s: Seq<DiceEntity>) -> int
    decreases s.len(),
{
    if s.len() == 0 {
        0
    } else {
        sum_weight(s.drop_last()) + entity_weight(s.last())
    }
}

/// An entity's magnitude bound is never negative.
pub proof fn lemma_entity_weight_nonneg(e: DiceEntity)
    ensures
        0 <= entity_weight(e),
{
    if !e.is_constant {
        assert(0 <= (e.count as int) * (e.sides as int)) by (nonlinear_arith)
            requires
                0 <= e.count as int,
                0 <= e.sides as int;
    }
}

/// For an evaluable entity the contributions are ordered and bounded:
/// `-weight <= min <= max <= weight`.
pub proof fn lemma_entity_bounds(e: DiceEntity)
    requires
        entity_evaluable(e),
    ensures
        0 <= entity_weight(e),
        -entity_weight(e) <= entity_min(e),
        entity_min(e) <= entity_max(e),
        entity_max(e) <= entity_weight(e),
{
    lemma_entity_weight_nonneg(e);
    if !e.is_constant {
        assert((e.count as int) * 1 <= (e.count as int) * (e.sides as int)) by (nonlinear_arith)
            requires
                0 <= e.count as int,
                1 <= e.sides as int;
    }
}

/// Extending a prefix by one entity extends each of its three sums by that
/// entity's contribution.
pub proof fn lemma_sum_take_step(s: Seq<DiceEntity>, i: int)
    requires
        0 <= i < s.len(),
    ensures
        sum_min(s.take(i + 1)) == sum_min(s.take(i)) + entity_min(s[i]),
        sum_max(s.take(i + 1)) == sum_max(s.take(i)) + entity_max(s[i]),
        sum_weight(s.take(i + 1)) == sum_weight(s.take(i)) + entity_weight(s[i]),
{
    assert(s.take(i + 1).drop_last() =~= s.take(i));
    assert(s.take(i + 1).last() == s[i]);
}

/// For a list of evaluable entities the three sums are ordered and bounded:
/// `-weight <= minimum <= maximum <= weight`.
pub proof fn lemma_sum_bounds(s: Seq<DiceEntity>)
    requires
        forall|i: int| 0 <= i < s.len() ==> entity_evaluable(#[trigger] s[i]),
    ensures
        0 <= sum_weight(s),
        -sum_weight(s) <= sum_min(s),
        sum_min(s) <= sum_max(s),
        sum_max(s) <= sum_weight(s),
    decreases s.len(),
{
    if s.len() > 0 {
        assert(forall|i: int|
            0 <= i < s.drop_last().len() ==> entity_evaluable(#[trigger] s.drop_last()[i]));
        lemma_sum_bounds(s.drop_last());
        lemma_entity_bounds(s.last());
    }
}

/// The summed magnitude bound of a prefix never exceeds that of the whole
/// list.
pub proof fn lemma_sum_weight_prefix(s: Seq<DiceEntity>, i: int)
    requires
        0 <= i <= s.len(),
    ensures
        sum_weight(s.take(i)) <= sum_weight(s),
    decreases s.len() - i,
{
    if i == s.len() {
        assert(s.take(i) =~= s);
    } else {
        lemma_sum_take_step(s, i);
        lemma_entity_weight_nonneg(s[i]);
        lemma_sum_weight_prefix(s, i + 1);
    }
}

/// Relies on rand's `Rng::gen_range` over the inclusive range `1..=sides`:
/// it draws a value uniformly within that range, and panics only when the
/// range is empty, which `sides >= 1` rules out.
#[verifier::external_body]
fn roll_die(sides: u32) -> (r: u32)
    requires
        1 <= sides,
    ensures
        1 <= r <= sides,
{
    rand::thread_rng().gen_range(1..=sides)
}

/// Draws `count` dice of `sides` sides and sums them.
fn roll_dice_sum(count: u32, sides: u32) -> (sum: u64)
    requires
        1 <= sides,
    ensures
        count as int <= sum as int <= (count as int) * (sides as int),
{
    proof {
        assert((count as int) * (sides as int) <= (u32::MAX as int) * (u32::MAX as int))
            by (nonlinear_arith)
            requires
                0 <= count as int <= u32::MAX as int,
                0 <= sides as int <= u32::MAX as int;
    }
    let mut sum: u64 = 0;
    let mut j: u32 = 0;
    while j < count
        invariant
            j <= count,
            1 <= sides,
            j as int <= sum as int <= (j as int) * (sides as int),
            (count as int) * (sides as int) <= (u32::MAX as int) * (u32::MAX as int),
        decreases count - j,
    {
        proof {
            assert((j as int + 1) * (sides as int) == (j as int) * (sides as int) + sides as int)
                by (nonlinear_arith);
            assert((j as int + 1) * (sides as int) <= (count as int) * (sides as int))
                by (nonlinear_arith)
                requires
                    j as int + 1 <= count as int,
                    1 <= sides as int;
        }
        let d = roll_die(sides);
        sum = sum + (d as u64);
        j = j + 1;
    }
    sum
}

/// Evaluates an entity list: draws every dice term once for the realized
/// total, and accumulates the attainable minimum and maximum alongside.
/// The realized total always lies between the two bounds.
pub fn calculate_dice_entities(entities: Vec<DiceEntity>) -> (r: DiceRollResponse)
    requires
        forall|i: int| 0 <= i < entities@.len() ==> entity_evaluable(#[trigger] entities@[i]),
        sum_weight(entities@) <= i64::MAX,
    ensures
        r.minimum_result == sum_min(entities@),
        r.maximum_result == sum_max(entities@),
        r.minimum_result <= r.result <= r.maximum_result,
{
    let ghost all = entities@;
    let mut result: i64 = 0;
    let mut minimum_result: i64 = 0;
    let mut maximum_result: i64 = 0;
    let n = entities.len();
    let mut i: usize = 0;
    proof {
        assert(all.take(0) =~= Seq::<DiceEntity>::empty());
    }
    while i < n
        invariant
            i <= n,
            n == all.len(),
            all == entities@,
            forall|k: int| 0 <= k < all.len() ==> entity_evaluable(#[trigger] all[k]),
            sum_weight(all) <= i64::MAX,
            minimum_result == sum_min(all.take(i as int)),
            maximum_result == sum_max(all.take(i as int)),
            sum_min(all.take(i as int)) <= result as int <= sum_max(all.take(i as int)),
        decreases n - i,
    {
        proof {
            lemma_sum_take_step(all, i as int);
            lemma_entity_bounds(all[i as int]);
            assert(forall|k: int|
                0 <= k < all.take(i as int).len() ==> entity_evaluable(
                    #[trigger] all.take(i as int)[k],
                ));
            assert(forall|k: int|
                0 <= k < all.take(i as int + 1).len() ==> entity_evaluable(
                    #[trigger] all.take(i as int + 1)[k],
                ));
            lemma_sum_bounds(all.take(i as int));
            lemma_sum_bounds(all.take(i as int + 1));
            lemma_sum_weight_prefix(all, i as int + 1);
        }
        let e = entities[i];
        if e.is_constant {
            if e.sign == '+' {
                result = result + (e.value as i64);
                minimum_result = minimum_result + (e.value as i64);
                maximum_result = maximum_result + (e.value as i64);
            } else {
                result = result - (e.value as i64);
                minimum_result = minimum_result - (e.value as i64);
                maximum_result = maximum_result - (e.value as i64);
            }
        } else {
            let sum = roll_dice_sum(e.count, e.sides);
            let span = (e.count as i64) * (e.sides as i64);
            if e.sign == '+' {
                result = result + (sum as i64);
                minimum_result = minimum_result + (e.count as i64);
                maximum_result = maximum_result + span;
            } else {
                result = result - (sum as i64);
                minimum_result = minimum_result - span;
                maximum_result = maximum_result - (e.count as i64);
            }
        }
        i = i + 1;
    }
    proof {
        assert(all.take(n as int) =~= all);
    }
    DiceRollResponse { result, minimum_result, maximum_result }
}

/// Whether the summed magnitude bound of `entities` fits the evaluator's
/// 64-bit accumulators.
pub fn entities_weight_within_limit(entities: &Vec<DiceEntity>) -> (b: bool)
    ensures
        b == (sum_weight(entities@) <= i64::MAX),
{
    let ghost all = entities@;
    let mut acc: u64 = 0;
    let n = entities.len();
    let mut i: usize = 0;
    proof {
        assert(all.take(0) =~= Seq::<DiceEntity>::empty());
    }
    while i < n
        invariant
            i <= n,
            n == all.len(),
            all == entities@,
            acc as int == sum_weight(all.take(i as int)),
            acc as int <= i64::MAX,
        decreases n - i,
    {
        proof {
            lemma_sum_take_step(all, i as int);
            lemma_entity_weight_nonneg(all[i as int]);
            lemma_sum_weight_prefix(all, i as int + 1);
        }
        let e = entities[i];
        let w: u64 = if e.is_constant {
            e.value as u64
        } else {
            proof {
                assert((e.count as int) * (e.sides as int) <= (u32::MAX as int) * (u32::MAX as int))
                    by (nonlinear_arith)
                    requires
                        0 <= e.count as int <= u32::MAX as int,
                        0 <= e.sides as int <= u32::MAX as int;
            }
            (e.count as u64) * (e.sides as u64)
        };
        let next = match acc.checked_add(w) {
            Some(x) => x,
            None => {
                return false;
            },
        };
        if next > i64::MAX as u64 {
            return false;
        }
        acc = next;
        i = i + 1;
    }
    proof {
        assert(all.take(n as int) =~= all);
    }
    true
}

} // verus!
