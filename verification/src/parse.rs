//! Stage three of the pipeline: parsing each signed textual term into a
//! structured entity.
//!
//! A term is a sign followed by a body. A body with a dice marker splits at
//! the first `d` into a count and a side count, both non-empty runs of digits
//! with positive values that fit in 32 bits; any other body is a run of
//! digits naming a constant. Everything else, a value that overflows
//! included, is a malformed term.

use vstd::prelude::*;

use crate::chars::{
    all_digits, char_digit_val, char_is_digit, char_is_op, digits_val, is_digit_char, is_op_char,
    lemma_digits_val_prefix_le, lemma_digits_val_step,
};
use crate::entity::{entity_wf, DiceEntity};
use crate::errors::ParseError;
use crate::text::str_to_chars;

verus! {

/// Whether `s` holds a (lowercase) dice marker.
pub open spec fn contains_d(s: Seq<char>) -> bool {
    exists|i: int| 0 <= i < s.len() && s[i] == 'd'
}

/// The index of the first dice marker of `s`.
pub open spec fn first_d_index(s: Seq<char>) -> int
    decreases s.len(),
{
    if s.len() == 0 {
        0
    } else if s[0] == 'd' {
        0
    } else {
        1 + first_d_index(s.skip(1))
    }
}

/// The first dice marker of `s` is at `k` exactly when `s[k]` is a marker and
/// nothing before it is.
pub proof fn lemma_first_d_index(s: Seq<char>, k: int)
    requires
        0 <= k < s.len(),
        s[k] == 'd',
        forall|j: int| 0 <= j < k ==> s[j] != 'd',
    ensures
        first_d_index(s) == k,
    decreases s.len(),
{
    if s[0] != 'd' {
        let t = s.skip(1);
        assert(t[k - 1] == s[k]);
        assert(forall|j: int| 0 <= j < k - 1 ==> t[j] == s[j + 1] && s[j + 1] != 'd');
        lemma_first_d_index(t, k - 1);
    }
}

/// The entity a signed term denotes, or `None` when the term is malformed.
pub open spec fn parse_term_spec(t: Seq<char>) -> Option<DiceEntity> {
    if t.len() < 2 || !is_op_char(t[0]) {
        None
    } else {
        let body = t.skip(1);
        if contains_d(body) {
            let i = first_d_index(body);
            let left = body.take(i);
            let right = body.skip(i + 1);
            if left.len() > 0 && right.len() > 0 && all_digits(left) && all_digits(right) && 1
                <= digits_val(left) <= u32::MAX && 1 <= digits_val(right) <= u32::MAX {
                Some(
                    DiceEntity {
                        count: digits_val(left) as u32,
                        sides: digits_val(right) as u32,
                        sign: t[0],
                        is_constant: false,
                        value: 0,
                    },
                )
            } else {
                None
            }
        } else {
            if all_digits(body) && digits_val(body) <= u32::MAX {
                Some(
                    DiceEntity {
                        count: 0,
                        sides: 0,
                        sign: t[0],
                        is_constant: true,
                        value: digits_val(body) as u32,
                    },
                )
            } else {
                None
            }
        }
    }
}

/// A parsed term satisfies the entity invariant.
pub proof fn lemma_parse_term_wf(t: Seq<char>)
    ensures
        parse_term_spec(t) matches Some(e) ==> entity_wf(e),
{
}

/// The entities of a sequence of terms, or the first malformed term.
pub open spec fn parse_terms_spec(ts: Seq<Seq<char>>) -> Result<Seq<DiceEntity>, Seq<char>>
    decreases ts.len(),
{
    if ts.len() == 0 {
        Ok(Seq::empty())
    } else {
        match parse_term_spec(ts[0]) {
            Some(e) => match parse_terms_spec(ts.skip(1)) {
                Ok(rest) => Ok(seq![e] + rest),
                Err(t) => Err(t),
            },
            None => Err(ts[0]),
        }
    }
}

/// Every entity of a parsed term sequence satisfies the entity invariant.
pub proof fn lemma_parse_terms_wf(ts: Seq<Seq<char>>)
    ensures
        parse_terms_spec(ts) matches Ok(es) ==> forall|i: int|
            0 <= i < es.len() ==> entity_wf(#[trigger] es[i]),
    decreases ts.len(),
{
    if ts.len() > 0 {
        lemma_parse_term_wf(ts[0]);
        lemma_parse_terms_wf(ts.skip(1));
    }
}

/// The result of parsing a whole term list, given the entities already parsed
/// and the outcome on the rest.
spec fn parse_join(
    prefix: Seq<DiceEntity>,
    rest: Result<Seq<DiceEntity>, Seq<char>>,
) -> Result<Seq<DiceEntity>, Seq<char>> {
    match rest {
        Ok(es) => Ok(prefix + es),
        Err(t) => Err(t),
    }
}

/// Reads the run of digits at `cs[from..to]` as a 32-bit value; `None` when a
/// non-digit appears or the value overflows.
fn parse_u32_digits(cs: &Vec<char>, from: usize, to: usize) -> (r: Option<u32>)
    requires
        from <= to <= cs@.len(),
    ensures
        ({
            let s = cs@.subrange(from as int, to as int);
            match r {
                Some(v) => all_digits(s) && digits_val(s) <= u32::MAX && v == digits_val(s),
                None => !(all_digits(s) && digits_val(s) <= u32::MAX),
            }
        }),
{
    let ghost s = cs@.subrange(from as int, to as int);
    let mut value: u32 = 0;
    let mut i: usize = from;
    proof {
        assert(s.take(0) =~= Seq::<char>::empty());
    }
    while i < to
        invariant
            from <= i <= to <= cs@.len(),
            s == cs@.subrange(from as int, to as int),
            all_digits(s.take(i - from)),
            value == digits_val(s.take(i - from)),
        decreases to - i,
    {
        let c = cs[i];
        proof {
            assert(s[i - from] == cs@[i as int]);
        }
        if !char_is_digit(c) {
            assert(!all_digits(s));
            return None;
        }
        let d = char_digit_val(c);
        proof {
            lemma_digits_val_step(s, i - from);
        }
        let v10 = match value.checked_mul(10) {
            Some(x) => x,
            None => {
                proof {
                    lemma_digits_val_prefix_le(s, i - from + 1);
                }
                return None;
            },
        };
        let v = match v10.checked_add(d) {
            Some(x) => x,
            None => {
                proof {
                    lemma_digits_val_prefix_le(s, i - from + 1);
                }
                return None;
            },
        };
        value = v;
        i = i + 1;
    }
    proof {
        assert(s.take(to - from) =~= s);
    }
    Some(value)
}

/// Parses one signed term.
fn parse_term(roll: &str) -> (r: Option<DiceEntity>)
    ensures
        r == parse_term_spec(roll@),
{
    let cs = str_to_chars(roll);
    let n = cs.len();
    if n < 2 {
        return None;
    }
    let sign = cs[0];
    if !char_is_op(sign) {
        return None;
    }
    let ghost body = cs@.skip(1);
    let mut k: usize = 1;
    while k < n && cs[k] != 'd'
        invariant
            1 <= k <= n,
            n == cs@.len(),
            forall|j: int| 1 <= j < k ==> cs@[j] != 'd',
        decreases n - k,
    {
        k = k + 1;
    }
    proof {
        assert(forall|j: int| 0 <= j < body.len() ==> body[j] == cs@[j + 1]);
    }
    if k < n {
        proof {
            assert(body[k - 1] == 'd');
            assert(contains_d(body));
            lemma_first_d_index(body, k - 1);
            assert(body.take(k - 1) =~= cs@.subrange(1, k as int));
            assert(body.skip(k as int) =~= cs@.subrange(k as int + 1, n as int));
        }
        let count = match parse_u32_digits(&cs, 1, k) {
            Some(v) => v,
            None => {
                return None;
            },
        };
        let sides = match parse_u32_digits(&cs, k + 1, n) {
            Some(v) => v,
            None => {
                return None;
            },
        };
        if count == 0 || sides == 0 {
            return None;
        }
        Some(DiceEntity { count, sides, sign, is_constant: false, value: 0 })
    } else {
        proof {
            assert(!contains_d(body));
            assert(body =~= cs@.subrange(1, n as int));
        }
        let value = match parse_u32_digits(&cs, 1, n) {
            Some(v) => v,
            None => {
                return None;
            },
        };
        Some(DiceEntity { count: 0, sides: 0, sign, is_constant: true, value })
    }
}

/// Parses a vector of signed terms into entities; fails with `MalformedTerm`
/// naming the first term that is neither a valid dice term nor a valid
/// constant term.
pub fn parse_dice_roll(rolls: Vec<String>) -> (r: Result<Vec<DiceEntity>, ParseError>)
    ensures
        ({
            match parse_terms_spec(rolls.deep_view()) {
                Ok(es) => r matches Ok(v) && v@ == es,
                Err(t) => r matches Err(e) && e is MalformedTerm && e.payload() == t,
            }
        }),
{
    let ghost ts = rolls.deep_view();
    let n = rolls.len();
    let mut out: Vec<DiceEntity> = Vec::new();
    let mut i: usize = 0;
    proof {
        assert(ts.len() == n);
        assert(ts.skip(0) =~= ts);
        if parse_terms_spec(ts) is Ok {
            assert(Seq::<DiceEntity>::empty() + parse_terms_spec(ts)->Ok_0 =~= parse_terms_spec(
                ts,
            )->Ok_0);
        }
    }
    while i < n
        invariant
            i <= n,
            n == rolls@.len(),
            ts == rolls.deep_view(),
            parse_terms_spec(ts) == parse_join(out@, parse_terms_spec(ts.skip(i as int))),
        decreases n - i,
    {
        let ghost rest = ts.skip(i as int);
        proof {
            assert(rest[0] == ts[i as int]);
            assert(ts[i as int] == rolls@[i as int]@);
            assert(rest.skip(1) =~= ts.skip(i as int + 1));
        }
        let roll = &rolls[i];
        match parse_term(roll.as_str()) {
            Some(e) => {
                let ghost out0 = out@;
                out.push(e);
                proof {
                    if parse_terms_spec(rest.skip(1)) is Ok {
                        let es = parse_terms_spec(rest.skip(1))->Ok_0;
                        assert(out0 + (seq![e] + es) =~= (out0 + seq![e]) + es);
                        assert(out@ =~= out0 + seq![e]);
                    }
                }
            },
            None => {
                return Err(ParseError::MalformedTerm { term: roll.clone() });
            },
        }
        i = i + 1;
    }
    proof {
        assert(ts.skip(n as int) =~= Seq::<Seq<char>>::empty());
        assert(out@ + Seq::<DiceEntity>::empty() =~= out@);
    }
    Ok(out)
}

} // verus!
