//! Stage two of the pipeline: segmentation.
//!
//! A normalized expression is split into signed textual terms. Digits and the
//! dice marker accumulate into a buffer; an operator flushes the buffer as a
//! term carrying the previously seen sign and becomes the sign of the next
//! term; the end of the input flushes what remains. A leading unsigned term
//! is implicitly positive.

use vstd::prelude::*;

use crate::chars::{char_is_digit, char_is_op, is_digit_char, is_op_char};
use crate::text::{chars_to_string, str_to_chars};

verus! {

/// The terms of `s`, scanned left to right with a pending sign and an
/// accumulating buffer.
pub open spec fn split_rec(s: Seq<char>, sign: char, buf: Seq<char>) -> Seq<Seq<char>>
    decreases s.len(),
{
    if s.len() == 0 {
        if buf.len() == 0 {
            Seq::empty()
        } else {
            seq![seq![sign] + buf]
        }
    } else if is_digit_char(s[0]) || s[0] == 'd' {
        split_rec(s.skip(1), sign, buf.push(s[0]))
    } else if is_op_char(s[0]) {
        if buf.len() == 0 {
            split_rec(s.skip(1), s[0], buf)
        } else {
            seq![seq![sign] + buf] + split_rec(s.skip(1), s[0], Seq::empty())
        }
    } else {
        split_rec(s.skip(1), sign, buf)
    }
}

/// The signed terms of a normalized expression.
pub open spec fn split_spec(s: Seq<char>) -> Seq<Seq<char>> {
    split_rec(s, '+', Seq::empty())
}

/// Splits a normalized expression into its signed terms: each element is
/// `"<sign><digits>d<digits>"` or `"<sign><digits>"` with sign `+` or `-`.
pub fn split_dice_roll(input: &str) -> (r: Vec<String>)
    ensures
        r.deep_view() == split_spec(input@),
{
    let cs = str_to_chars(input);
    let n = cs.len();
    let mut out: Vec<String> = Vec::new();
    let mut sign: char = '+';
    let mut buf: Vec<char> = Vec::new();
    let mut i: usize = 0;
    proof {
        assert(cs@.skip(0) =~= cs@);
        assert(out.deep_view() =~= Seq::<Seq<char>>::empty());
        assert(Seq::<Seq<char>>::empty() + split_spec(cs@) =~= split_spec(cs@));
    }
    while i < n
        invariant
            i <= n,
            n == cs@.len(),
            cs@ == input@,
            split_spec(input@) == out.deep_view() + split_rec(
                cs@.skip(i as int),
                sign,
                buf@,
            ),
        decreases n - i,
    {
        let ghost rest = cs@.skip(i as int);
        proof {
            assert(rest[0] == cs@[i as int]);
            assert(rest.skip(1) =~= cs@.skip(i as int + 1));
        }
        let c = cs[i];
        if char_is_digit(c) || c == 'd' {
            buf.push(c);
        } else if char_is_op(c) {
            if buf.len() > 0 {
                let ghost dv0 = out.deep_view();
                let ghost term0 = seq![sign] + buf@;
                let mut term: Vec<char> = Vec::new();
                term.push(sign);
                term.append(&mut buf);
                proof {
                    assert(term@ =~= term0);
                }
                let s = chars_to_string(&term);
                out.push(s);
                proof {
                    assert(out.deep_view() =~= dv0.push(term0));
                    assert(dv0 + (seq![term0] + split_rec(rest.skip(1), c, Seq::empty())) =~= (dv0
                        + seq![term0]) + split_rec(rest.skip(1), c, Seq::empty()));
                    assert(dv0.push(term0) =~= dv0 + seq![term0]);
                }
            }
            sign = c;
        }
        i = i + 1;
    }
    proof {
        assert(cs@.skip(n as int) =~= Seq::<char>::empty());
    }
    if buf.len() > 0 {
        let ghost dv0 = out.deep_view();
        let ghost term0 = seq![sign] + buf@;
        let mut term: Vec<char> = Vec::new();
        term.push(sign);
        term.append(&mut buf);
        proof {
            assert(term@ =~= term0);
        }
        let s = chars_to_string(&term);
        out.push(s);
        proof {
            assert(out.deep_view() =~= dv0.push(term0));
            assert(dv0.push(term0) =~= dv0 + seq![term0]);
        }
    } else {
        proof {
            assert(out.deep_view() + Seq::<Seq<char>>::empty() =~= out.deep_view());
        }
    }
    out
}

} // verus!
