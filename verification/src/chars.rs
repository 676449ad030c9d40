//! Character classes of the dice-expression grammar, and the numeric value of
//! a run of decimal digits.

use vstd::prelude::*;

verus! {

/// A decimal digit `0`..`9`.
pub open spec fn is_digit_char(c: char) -> bool {
    '0' <= c && c <= '9'
}

/// A dice marker: lowercase or uppercase `d`.
pub open spec fn is_dice_marker(c: char) -> bool {
    c == 'd' || c == 'D'
}

/// An operator: `+` or `-`.
pub open spec fn is_op_char(c: char) -> bool {
    c == '+' || c == '-'
}

/// The full character set a raw expression may use.
pub open spec fn is_allowed_char(c: char) -> bool {
    is_digit_char(c) || is_dice_marker(c) || is_op_char(c) || c == ' '
}

/// The numeric value of one digit character.
pub open spec fn digit_val(c: char) -> nat
    recommends
        is_digit_char(c),
{
    (c as int - '0' as int) as nat
}

/// Every character of `s` is a decimal digit.
pub open spec fn all_digits(s: Seq<char>) -> bool {
    forall|i: int| 0 <= i < s.len() ==> is_digit_char(#[trigger] s[i])
}

/// The value of a run of decimal digits, most significant first.
pub open spec fn digits_val(s: Seq<char>) -> nat
    decreases s.len(),
{
    if s.len() == 0 {
        0
    } else {
        digits_val(s.drop_last()) * 10 + digit_val(s.last())
    }
}

/// Reading one more digit multiplies the value by ten and adds the digit.
pub proof fn lemma_digits_val_step(s: Seq<char>, i: int)
    requires
        0 <= i < s.len(),
    ensures
        digits_val(s.take(i + 1)) == digits_val(s.take(i)) * 10 + digit_val(s[i]),
{
    assert(s.take(i + 1).drop_last() =~= s.take(i));
    assert(s.take(i + 1).last() == s[i]);
}

/// A prefix of a digit run never has a larger value than the whole run.
pub proof fn lemma_digits_val_prefix_le(s: Seq<char>, i: int)
    requires
        0 <= i <= s.len(),
    ensures
        digits_val(s.take(i)) <= digits_val(s),
    decreases s.len() - i,
{
    if i == s.len() {
        assert(s.take(i) =~= s);
    } else {
        lemma_digits_val_step(s, i);
        lemma_digits_val_prefix_le(s, i + 1);
    }
}

/// Runtime check for [`is_digit_char`].
pub fn char_is_digit(c: char) -> (b: bool)
    ensures
        b == is_digit_char(c),
{
    '0' <= c && c <= '9'
}

/// Runtime check for [`is_op_char`].
pub fn char_is_op(c: char) -> (b: bool)
    ensures
        b == is_op_char(c),
{
    c == '+' || c == '-'
}

/// Runtime check for [`is_dice_marker`].
pub fn char_is_dice_marker(c: char) -> (b: bool)
    ensures
        b == is_dice_marker(c),
{
    c == 'd' || c == 'D'
}

/// Runtime check for [`is_allowed_char`].
pub fn char_is_allowed(c: char) -> (b: bool)
    ensures
        b == is_allowed_char(c),
{
    char_is_digit(c) || char_is_dice_marker(c) || char_is_op(c) || c == ' '
}

/// Runtime value of one digit character.
pub fn char_digit_val(c: char) -> (v: u32)
    requires
        is_digit_char(c),
    ensures
        v == digit_val(c),
        v <= 9,
{
    (c as u32) - ('0' as u32)
}

} // verus!
