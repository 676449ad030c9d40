//! Stage one of the pipeline: normalization.
//!
//! A raw expression is checked against the allowed character set, stripped of
//! spaces, given an implicit count of `1` before any dice marker that lacks
//! one, checked for a positive digit after every dice marker, stripped of
//! trailing operators, and lowercased (the only uppercase letter the grammar
//! admits is `D`, which becomes `d`).

use vstd::prelude::*;
use vstd::string::StringExecFns;

use crate::chars::{
    char_is_allowed, char_is_dice_marker, char_is_digit, char_is_op, is_allowed_char,
    is_dice_marker, is_digit_char, is_op_char,
};
use crate::errors::ParseError;
use crate::text::{chars_to_string, str_to_chars};

verus! {

/// Every character of `s` is one the grammar allows.
pub open spec fn seq_all_allowed(s: Seq<char>) -> bool {
    forall|i: int| 0 <= i < s.len() ==> is_allowed_char(#[trigger] s[i])
}

/// `s` with every space removed.
pub open spec fn strip_spaces(s: Seq<char>) -> Seq<char>
    decreases s.len(),
{
    if s.len() == 0 {
        Seq::empty()
    } else if s.first() == ' ' {
        strip_spaces(s.drop_first())
    } else {
        seq![s.first()] + strip_spaces(s.drop_first())
    }
}

/// The canonical text of a space-free expression, scanned left to right, or
/// `None` when a dice marker is not followed by a positive digit.
///
/// `prev_digit` says whether the previously emitted character was a digit; a
/// dice marker emits an implicit count of `1` when it was not. Digits and
/// operators are copied; a marker is emitted as lowercase `d` together with
/// the first digit of its side count.
pub open spec fn norm_rec(s: Seq<char>, prev_digit: bool) -> Option<Seq<char>>
    decreases s.len(),
{
    if s.len() == 0 {
        Some(Seq::empty())
    } else if is_digit_char(s[0]) {
        match norm_rec(s.skip(1), true) {
            Some(t) => Some(seq![s[0]] + t),
            None => None,
        }
    } else if is_dice_marker(s[0]) {
        if s.len() >= 2 && is_digit_char(s[1]) && s[1] != '0' {
            match norm_rec(s.skip(2), true) {
                Some(t) => Some(
                    (if prev_digit {
                        seq!['d', s[1]]
                    } else {
                        seq!['1', 'd', s[1]]
                    }) + t,
                ),
                None => None,
            }
        } else {
            None
        }
    } else {
        match norm_rec(s.skip(1), false) {
            Some(t) => Some(seq![s[0]] + t),
            None => None,
        }
    }
}

/// `s` with every trailing `+` or `-` removed.
pub open spec fn trim_trailing_ops(s: Seq<char>) -> Seq<char>
    decreases s.len(),
{
    if s.len() > 0 && is_op_char(s.last()) {
        trim_trailing_ops(s.drop_last())
    } else {
        s
    }
}

/// Whether normalization accepts `s`: only allowed characters, and every dice
/// marker followed by a positive digit.
pub open spec fn normalize_ok(s: Seq<char>) -> bool {
    seq_all_allowed(s) && norm_rec(strip_spaces(s), false) is Some
}

/// The canonical form of `s`.
pub open spec fn normalize_spec(s: Seq<char>) -> Seq<char>
    recommends
        normalize_ok(s),
{
    trim_trailing_ops(norm_rec(strip_spaces(s), false).unwrap())
}

/// Every character of `t` is one a canonical expression may hold: a digit, a
/// lowercase dice marker, or an operator.
pub open spec fn canonical_chars(t: Seq<char>) -> bool {
    forall|i: int|
        0 <= i < t.len() ==> (is_digit_char(#[trigger] t[i]) || t[i] == 'd' || is_op_char(t[i]))
}

/// Every dice marker of `t` is followed by a positive digit.
pub open spec fn marker_has_sides(t: Seq<char>) -> bool {
    forall|i: int|
        0 <= i < t.len() && (#[trigger] t[i]) == 'd' ==> i + 1 < t.len() && is_digit_char(t[i + 1])
            && t[i + 1] != '0'
}

/// Every dice marker of `t` past the first position is preceded by a digit.
pub open spec fn marker_has_count(t: Seq<char>) -> bool {
    forall|i: int| 1 <= i < t.len() && (#[trigger] t[i]) == 'd' ==> is_digit_char(t[i - 1])
}

/// The shape normalization produces: canonical characters only, every dice
/// marker flanked by its count and a positive side digit, and no leading
/// marker or trailing operator.
pub open spec fn is_normalized(t: Seq<char>) -> bool {
    &&& canonical_chars(t)
    &&& marker_has_sides(t)
    &&& marker_has_count(t)
    &&& t.len() > 0 ==> t[0] != 'd'
    &&& t.len() > 0 ==> !is_op_char(t.last())
}

/// The scan's result for a whole string, given the part already emitted and
/// the outcome on the rest.
spec fn norm_join(prefix: Seq<char>, rest: Option<Seq<char>>) -> Option<Seq<char>> {
    match rest {
        Some(t) => Some(prefix + t),
        None => None,
    }
}

/// Normalizes a dice-roll expression: rejects characters outside digits,
/// `d`/`D`, `+`, `-` and space, strips spaces, lowercases the dice markers,
/// inserts an implicit count of `1` before any marker not preceded by a
/// digit, demands a positive digit after every marker, and drops trailing
/// operators.
pub fn normalize_dice_roll(dice_roll: &str) -> (r: Result<String, ParseError>)
    ensures
        normalize_ok(dice_roll@) ==> (r matches Ok(s) && s@ == normalize_spec(dice_roll@)),
        !seq_all_allowed(dice_roll@) ==> (r matches Err(e) && e is InvalidCharacter
            && e.payload() == dice_roll@),
        seq_all_allowed(dice_roll@) && !normalize_ok(dice_roll@) ==> (r matches Err(e)
            && e is InvalidDiceType && e.payload() == dice_roll@),
{
    let cs = str_to_chars(dice_roll);
    let n = cs.len();

    let mut i: usize = 0;
    while i < n
        invariant
            i <= n,
            n == cs@.len(),
            cs@ == dice_roll@,
            forall|j: int| 0 <= j < i ==> is_allowed_char(#[trigger] cs@[j]),
        decreases n - i,
    {
        if !char_is_allowed(cs[i]) {
            return Err(ParseError::InvalidCharacter { input: String::from_str(dice_roll) });
        }
        i = i + 1;
    }
    assert(seq_all_allowed(dice_roll@));

    let mut stripped: Vec<char> = Vec::new();
    let mut i: usize = 0;
    proof {
        assert(cs@.skip(0) =~= cs@);
        assert(Seq::<char>::empty() + strip_spaces(cs@) =~= strip_spaces(cs@));
    }
    while i < n
        invariant
            i <= n,
            n == cs@.len(),
            cs@ == dice_roll@,
            strip_spaces(cs@) == stripped@ + strip_spaces(cs@.skip(i as int)),
        decreases n - i,
    {
        let c = cs[i];
        proof {
            let rest = cs@.skip(i as int);
            assert(rest.len() == n - i);
            assert(rest.first() == cs@[i as int]);
            assert(rest.drop_first() =~= cs@.skip(i as int + 1));
            if c != ' ' {
                assert((stripped@ + seq![c]) + strip_spaces(cs@.skip(i as int + 1)) =~= stripped@
                    + (seq![c] + strip_spaces(cs@.skip(i as int + 1))));
            }
        }
        if c != ' ' {
            stripped.push(c);
        }
        i = i + 1;
    }
    proof {
        assert(cs@.skip(n as int) =~= Seq::<char>::empty());
        assert(stripped@ + Seq::<char>::empty() =~= stripped@);
        assert(stripped@ == strip_spaces(dice_roll@));
    }

    let m = stripped.len();
    let mut out: Vec<char> = Vec::new();
    let mut prev_digit = false;
    let mut i: usize = 0;
    proof {
        assert(stripped@.skip(0) =~= stripped@);
        if norm_rec(stripped@, false) is Some {
            assert(Seq::<char>::empty() + norm_rec(stripped@, false).unwrap() =~= norm_rec(
                stripped@,
                false,
            ).unwrap());
        }
    }
    while i < m
        invariant
            i <= m,
            m == stripped@.len(),
            seq_all_allowed(dice_roll@),
            stripped@ == strip_spaces(dice_roll@),
            norm_rec(stripped@, false) == norm_join(
                out@,
                norm_rec(stripped@.skip(i as int), prev_digit),
            ),
        decreases m - i,
    {
        let ghost rest = stripped@.skip(i as int);
        proof {
            assert(rest.len() == m - i);
            assert(rest[0] == stripped@[i as int]);
            assert(rest.skip(1) =~= stripped@.skip(i as int + 1));
        }
        let c = stripped[i];
        if char_is_digit(c) {
            let ghost out0 = out@;
            out.push(c);
            proof {
                assert(out@ =~= out0 + seq![c]);
                if norm_rec(rest.skip(1), true) is Some {
                    assert((out0 + seq![c]) + norm_rec(rest.skip(1), true).unwrap() =~= out0 + (
                    seq![c] + norm_rec(rest.skip(1), true).unwrap()));
                }
            }
            prev_digit = true;
            i = i + 1;
        } else if char_is_dice_marker(c) {
            if i + 1 == m {
                return Err(ParseError::InvalidDiceType { input: String::from_str(dice_roll) });
            }
            proof {
                assert(rest[1] == stripped@[i as int + 1]);
                assert(rest.skip(2) =~= stripped@.skip(i as int + 2));
            }
            let d = stripped[i + 1];
            if !char_is_digit(d) || d == '0' {
                return Err(ParseError::InvalidDiceType { input: String::from_str(dice_roll) });
            }
            let ghost out0 = out@;
            let ghost chunk: Seq<char> = if prev_digit {
                seq!['d', d]
            } else {
                seq!['1', 'd', d]
            };
            if !prev_digit {
                out.push('1');
            }
            out.push('d');
            out.push(d);
            proof {
                assert(out@ =~= out0 + chunk);
                if norm_rec(rest.skip(2), true) is Some {
                    assert((out0 + chunk) + norm_rec(rest.skip(2), true).unwrap() =~= out0 + (chunk
                        + norm_rec(rest.skip(2), true).unwrap()));
                }
            }
            prev_digit = true;
            i = i + 2;
        } else {
            let ghost out0 = out@;
            out.push(c);
            proof {
                assert(out@ =~= out0 + seq![c]);
                if norm_rec(rest.skip(1), false) is Some {
                    assert((out0 + seq![c]) + norm_rec(rest.skip(1), false).unwrap() =~= out0 + (
                    seq![c] + norm_rec(rest.skip(1), false).unwrap()));
                }
            }
            prev_digit = false;
            i = i + 1;
        }
    }
    proof {
        assert(stripped@.skip(m as int) =~= Seq::<char>::empty());
        assert(out@ + Seq::<char>::empty() =~= out@);
        assert(norm_rec(stripped@, false) == Some(out@));
    }

    let ghost full = out@;
    while out.len() > 0 && char_is_op(out[out.len() - 1])
        invariant
            trim_trailing_ops(out@) == trim_trailing_ops(full),
        decreases out.len(),
    {
        let ghost before = out@;
        out.pop();
        proof {
            assert(out@ == before.drop_last());
            assert(trim_trailing_ops(before) == trim_trailing_ops(before.drop_last()));
        }
    }
    assert(out@ == trim_trailing_ops(full));

    Ok(chars_to_string(&out))
}

/// Stripping an allowed text keeps only allowed, non-space characters.
proof fn lemma_strip_spaces_chars(s: Seq<char>)
    requires
        seq_all_allowed(s),
    ensures
        forall|i: int|
            0 <= i < strip_spaces(s).len() ==> is_allowed_char(#[trigger] strip_spaces(s)[i])
                && strip_spaces(s)[i] != ' ',
    decreases s.len(),
{
    if s.len() > 0 {
        assert(forall|i: int|
            0 <= i < s.drop_first().len() ==> #[trigger] s.drop_first()[i] == s[i + 1]);
        lemma_strip_spaces_chars(s.drop_first());
        if s.first() != ' ' {
            let t = seq![s.first()] + strip_spaces(s.drop_first());
            assert forall|i: int| 0 <= i < t.len() implies is_allowed_char(#[trigger] t[i]) && t[i]
                != ' ' by {
                if i == 0 {
                    assert(t[0] == s[0]);
                } else {
                    assert(t[i] == strip_spaces(s.drop_first())[i - 1]);
                }
            }
        }
    }
}

/// A text with no spaces is unchanged by stripping.
proof fn lemma_strip_spaces_identity(t: Seq<char>)
    requires
        forall|i: int| 0 <= i < t.len() ==> (#[trigger] t[i]) != ' ',
    ensures
        strip_spaces(t) == t,
    decreases t.len(),
{
    if t.len() > 0 {
        assert(forall|i: int|
            0 <= i < t.drop_first().len() ==> #[trigger] t.drop_first()[i] == t[i + 1]);
        lemma_strip_spaces_identity(t.drop_first());
        assert(seq![t.first()] + t.drop_first() =~= t);
    }
}

/// Trimming trailing operators takes a prefix, drops only operators, and
/// leaves no operator at the end.
proof fn lemma_trim_prefix(u: Seq<char>)
    ensures
        trim_trailing_ops(u).len() <= u.len(),
        trim_trailing_ops(u) == u.take(trim_trailing_ops(u).len() as int),
        forall|j: int| trim_trailing_ops(u).len() <= j < u.len() ==> is_op_char(#[trigger] u[j]),
        trim_trailing_ops(u).len() > 0 ==> !is_op_char(u[trim_trailing_ops(u).len() - 1]),
    decreases u.len(),
{
    if u.len() > 0 && is_op_char(u.last()) {
        lemma_trim_prefix(u.drop_last());
        let w = trim_trailing_ops(u);
        assert(u.drop_last().take(w.len() as int) =~= u.take(w.len() as int));
        assert(forall|j: int|
            0 <= j < u.drop_last().len() ==> #[trigger] u.drop_last()[j] == u[j]);
        assert forall|j: int| w.len() <= j < u.len() implies is_op_char(#[trigger] u[j]) by {
            if j < u.len() - 1 {
                assert(is_op_char(u.drop_last()[j]));
            } else {
                assert(u[j] == u.last());
            }
        }
    }
}

/// What the scan emits: canonical characters, every dice marker followed by
/// a positive digit and preceded by a digit unless it opens the text, and an
/// opening marker only when a digit was emitted just before the scanned part.
proof fn lemma_norm_rec_props(s: Seq<char>, p: bool)
    requires
        norm_rec(s, p) is Some,
        forall|i: int|
            0 <= i < s.len() ==> (is_digit_char(#[trigger] s[i]) || is_dice_marker(s[i])
                || is_op_char(s[i])),
    ensures
        canonical_chars(norm_rec(s, p).unwrap()),
        marker_has_sides(norm_rec(s, p).unwrap()),
        marker_has_count(norm_rec(s, p).unwrap()),
        norm_rec(s, p).unwrap().len() > 0 && norm_rec(s, p).unwrap()[0] == 'd' ==> p,
    decreases s.len(),
{
    let u = norm_rec(s, p).unwrap();
    if s.len() == 0 {
    } else if is_digit_char(s[0]) {
        assert(forall|i: int| 0 <= i < s.skip(1).len() ==> #[trigger] s.skip(1)[i] == s[i + 1]);
        lemma_norm_rec_props(s.skip(1), true);
        let u1 = norm_rec(s.skip(1), true).unwrap();
        assert(u == seq![s[0]] + u1);
        assert(u[0] == s[0]);
        assert(forall|i: int| 1 <= i < u.len() ==> #[trigger] u[i] == u1[i - 1]);
        assert forall|i: int|
            0 <= i < u.len() && (#[trigger] u[i]) == 'd' implies i + 1 < u.len() && is_digit_char(
            u[i + 1],
        ) && u[i + 1] != '0' by {
            assert(i >= 1);
            assert(u1[i - 1] == 'd');
            assert(u[i + 1] == u1[i]);
        }
        assert forall|i: int|
            1 <= i < u.len() && (#[trigger] u[i]) == 'd' implies is_digit_char(u[i - 1]) by {
            assert(u1[i - 1] == 'd');
            if i >= 2 {
                assert(u[i - 1] == u1[i - 2]);
            }
        }
    } else if is_dice_marker(s[0]) {
        assert(forall|i: int| 0 <= i < s.skip(2).len() ==> #[trigger] s.skip(2)[i] == s[i + 2]);
        lemma_norm_rec_props(s.skip(2), true);
        let u1 = norm_rec(s.skip(2), true).unwrap();
        let chunk: Seq<char> = if p {
            seq!['d', s[1]]
        } else {
            seq!['1', 'd', s[1]]
        };
        let ghost ell = chunk.len() as int;
        assert(u == chunk + u1);
        assert(forall|j: int| 0 <= j < ell ==> #[trigger] u[j] == chunk[j]);
        assert(forall|i: int| ell <= i < u.len() ==> #[trigger] u[i] == u1[i - ell]);
        assert forall|i: int|
            0 <= i < u.len() && (#[trigger] u[i]) == 'd' implies i + 1 < u.len() && is_digit_char(
            u[i + 1],
        ) && u[i + 1] != '0' by {
            if i < ell {
                assert(i == ell - 2);
                assert(u[i + 1] == chunk[ell - 1]);
                assert(chunk[ell - 1] == s[1]);
            } else {
                assert(u1[i - ell] == 'd');
                assert(u[i + 1] == u1[i - ell + 1]);
            }
        }
        assert forall|i: int|
            1 <= i < u.len() && (#[trigger] u[i]) == 'd' implies is_digit_char(u[i - 1]) by {
            if i < ell {
                assert(i == ell - 2 && !p);
                assert(u[i - 1] == chunk[0]);
            } else {
                assert(u1[i - ell] == 'd');
                if i - ell == 0 {
                    assert(u[i - 1] == chunk[ell - 1]);
                } else {
                    assert(u[i - 1] == u1[i - ell - 1]);
                }
            }
        }
    } else {
        assert(forall|i: int| 0 <= i < s.skip(1).len() ==> #[trigger] s.skip(1)[i] == s[i + 1]);
        lemma_norm_rec_props(s.skip(1), false);
        let u1 = norm_rec(s.skip(1), false).unwrap();
        assert(u == seq![s[0]] + u1);
        assert(u[0] == s[0]);
        assert(is_op_char(s[0]));
        assert(forall|i: int| 1 <= i < u.len() ==> #[trigger] u[i] == u1[i - 1]);
        assert forall|i: int|
            0 <= i < u.len() && (#[trigger] u[i]) == 'd' implies i + 1 < u.len() && is_digit_char(
            u[i + 1],
        ) && u[i + 1] != '0' by {
            assert(i >= 1);
            assert(u1[i - 1] == 'd');
            assert(u[i + 1] == u1[i]);
        }
        assert forall|i: int|
            1 <= i < u.len() && (#[trigger] u[i]) == 'd' implies is_digit_char(u[i - 1]) by {
            assert(u1[i - 1] == 'd');
            assert(i - 1 >= 1);
            assert(u[i - 1] == u1[i - 2]);
        }
    }
}

/// The scan leaves a canonical text unchanged. `p` says whether the
/// character before the scanned part was a digit; a text opening with a
/// marker demands one.
proof fn lemma_norm_rec_identity(w: Seq<char>, p: bool)
    requires
        canonical_chars(w),
        marker_has_sides(w),
        marker_has_count(w),
        w.len() > 0 && w[0] == 'd' ==> p,
    ensures
        norm_rec(w, p) == Some(w),
    decreases w.len(),
{
    if w.len() == 0 {
    } else if is_digit_char(w[0]) {
        let t = w.skip(1);
        assert(forall|i: int| 0 <= i < t.len() ==> #[trigger] t[i] == w[i + 1]);
        lemma_norm_rec_identity(t, true);
        assert(seq![w[0]] + t =~= w);
    } else if w[0] == 'd' {
        assert(w.len() >= 2 && is_digit_char(w[1]) && w[1] != '0');
        let t = w.skip(2);
        assert(forall|i: int| 0 <= i < t.len() ==> #[trigger] t[i] == w[i + 2]);
        assert forall|i: int|
            0 <= i < t.len() && (#[trigger] t[i]) == 'd' implies i + 1 < t.len() && is_digit_char(
            t[i + 1],
        ) && t[i + 1] != '0' by {
            assert(w[i + 2] == 'd');
        }
        assert forall|i: int|
            1 <= i < t.len() && (#[trigger] t[i]) == 'd' implies is_digit_char(t[i - 1]) by {
            assert(w[i + 2] == 'd');
        }
        lemma_norm_rec_identity(t, true);
        assert(is_dice_marker(w[0]) && !is_digit_char(w[0]));
        assert(seq!['d', w[1]] + t =~= w);
    } else {
        assert(is_op_char(w[0]));
        let t = w.skip(1);
        assert(forall|i: int| 0 <= i < t.len() ==> #[trigger] t[i] == w[i + 1]);
        if t.len() > 0 && t[0] == 'd' {
            assert(w[1] == 'd');
            assert(is_digit_char(w[0]));
        }
        lemma_norm_rec_identity(t, false);
        assert(seq![w[0]] + t =~= w);
    }
}

/// Normalization's output has the canonical shape.
pub proof fn lemma_normalize_output_normalized(s: Seq<char>)
    requires
        normalize_ok(s),
    ensures
        is_normalized(normalize_spec(s)),
{
    let stripped = strip_spaces(s);
    lemma_strip_spaces_chars(s);
    lemma_norm_rec_props(stripped, false);
    let u = norm_rec(stripped, false).unwrap();
    lemma_trim_prefix(u);
    let w = trim_trailing_ops(u);
    assert(forall|i: int| 0 <= i < w.len() ==> #[trigger] w[i] == u[i]);
    assert forall|i: int|
        0 <= i < w.len() && (#[trigger] w[i]) == 'd' implies i + 1 < w.len() && is_digit_char(
        w[i + 1],
    ) && w[i + 1] != '0' by {
        assert(u[i] == 'd');
        assert(i + 1 < u.len() && is_digit_char(u[i + 1]) && u[i + 1] != '0');
        if i + 1 >= w.len() {
            assert(is_op_char(u[i + 1]));
        }
        assert(w[i + 1] == u[i + 1]);
    }
    assert forall|i: int|
        1 <= i < w.len() && (#[trigger] w[i]) == 'd' implies is_digit_char(w[i - 1]) by {
        assert(u[i] == 'd');
    }
    if w.len() > 0 {
        assert(w[0] == u[0]);
        assert(w.last() == u[w.len() - 1]);
    }
}

/// A canonical text is a fixed point of normalization.
pub proof fn lemma_normalized_fixed(t: Seq<char>)
    requires
        is_normalized(t),
    ensures
        normalize_ok(t),
        normalize_spec(t) == t,
{
    assert forall|i: int| 0 <= i < t.len() implies is_allowed_char(#[trigger] t[i]) by {
        assert(is_digit_char(t[i]) || t[i] == 'd' || is_op_char(t[i]));
    }
    assert forall|i: int| 0 <= i < t.len() implies (#[trigger] t[i]) != ' ' by {
        assert(is_digit_char(t[i]) || t[i] == 'd' || is_op_char(t[i]));
    }
    lemma_strip_spaces_identity(t);
    lemma_norm_rec_identity(t, false);
    assert(trim_trailing_ops(t) == t);
}

/// Normalization is idempotent: normalizing its own output changes nothing.
pub proof fn lemma_normalize_idempotent(s: Seq<char>)
    requires
        normalize_ok(s),
    ensures
        normalize_ok(normalize_spec(s)),
        normalize_spec(normalize_spec(s)) == normalize_spec(s),
{
    lemma_normalize_output_normalized(s);
    lemma_normalized_fixed(normalize_spec(s));
}

} // verus!
