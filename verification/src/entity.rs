//! The parsed unit of a roll expression: a signed dice term or a signed
//! constant term.

use vstd::prelude::*;

use crate::chars::is_op_char;

verus! {

/// One term of a roll expression.
///
/// A dice term (`is_constant == false`) rolls `count` dice of `sides` sides;
/// a constant term (`is_constant == true`) contributes the fixed `value`.
/// `sign` is `'+'` or `'-'` and says whether the term adds or subtracts.
#[derive(Debug, Clone, Copy)]
pub struct DiceEntity {
    pub count: u32,
    pub sides: u32,
    pub sign: char,
    pub is_constant: bool,
    pub value: u32,
}

/// The invariant the parser establishes: the sign is an operator, a dice term
/// has at least one die with at least one side and no constant value, and a
/// constant term has no dice attributes.
pub open spec fn entity_wf(e: DiceEntity) -> bool {
    &&& is_op_char(e.sign)
    &&& if e.is_constant {
        e.count == 0 && e.sides == 0
    } else {
        e.count >= 1 && e.sides >= 1 && e.value == 0
    }
}

impl PartialEq for DiceEntity {
    /// Two entities are equal when all their fields agree.
    fn eq(&self, other: &Self) -> (r: bool) {
        self.count == other.count && self.sides == other.sides && self.sign == other.sign
            && self.is_constant == other.is_constant && self.value == other.value
    }
}

impl vstd::std_specs::cmp::PartialEqSpecImpl for DiceEntity {
    open spec fn obeys_eq_spec() -> bool {
        true
    }

    open spec fn eq_spec(&self, other: &Self) -> bool {
        self.count == other.count && self.sides == other.sides && self.sign == other.sign
            && self.is_constant == other.is_constant && self.value == other.value
    }
}

} // verus!
