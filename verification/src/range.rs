//! Closed-open numeric intervals in micro-units, with the `"start-end"`
//! textual form.

use vstd::prelude::*;
use crate::error::Error;
use crate::num::{fmt_micros, fmt_micros_chars, parse_micros, parse_micros_chars, MAX_MICROS};
use crate::text::{concat_str, find_char, find_char_in, str_chars, string_of, subvec};

verus! {

/// The interval `[start, end)` over micro-unit quantities.
#[derive(Clone, Copy, Debug, PartialEq, Eq, Structural)]
pub struct Range {
    pub start: i64,
    pub end: i64,
}

/// Both bounds stay within the parseable magnitude.
pub open spec fn range_wf(r: Range) -> bool {
    &&& -MAX_MICROS <= r.start <= MAX_MICROS
    &&& -MAX_MICROS <= r.end <= MAX_MICROS
}

/// The bounds denoted by a range string, split at the first `-`.
pub open spec fn parse_range(s: Seq<char>) -> Option<(int, int)> {
    match find_char(s, '-') {
        Option::Some(i) => match (
            parse_micros(s.subrange(0, i as int)),
            parse_micros(s.skip(i as int + 1)),
        ) {
            (Option::Some(a), Option::Some(b)) => Option::Some((a, b)),
            _ => Option::None,
        },
        Option::None => Option::None,
    }
}

/// The textual form of a range: start, `-`, end.
pub open spec fn fmt_range(r: Range) -> Seq<char> {
    fmt_micros(r.start as int) + seq!['-'] + fmt_micros(r.end as int)
}

impl Range {
    pub fn new(start: i64, end: i64) -> (r: Self)
        requires
            -MAX_MICROS <= start <= MAX_MICROS,
            -MAX_MICROS <= end <= MAX_MICROS,
        ensures
            r.start == start && r.end == end,
    {
        Self { start, end }
    }

    pub fn start(&self) -> (v: i64)
        ensures
            v == self.start,
    {
        self.start
    }

    pub fn end(&self) -> (v: i64)
        ensures
            v == self.end,
    {
        self.end
    }

    /// Parse a range string. `Ok` exactly when the text splits at its
    /// first `-` into two decimals within [`MAX_MICROS`].
    pub fn from_str(s: &str) -> (r: Result<Range, Error>)
        ensures
            match r {
                Ok(rg) => {
                    &&& parse_range(s@) == Option::Some((rg.start as int, rg.end as int))
                    &&& range_wf(rg)
                },
                Err(e) => {
                    &&& e == Error::Parse
                    &&& match parse_range(s@) {
                        Option::Some(p) => crate::num::abs_int(p.0) > MAX_MICROS
                            || crate::num::abs_int(p.1) > MAX_MICROS,
                        Option::None => true,
                    }
                },
            },
    {
        let v = str_chars(s);
        match find_char_in(&v, '-') {
            Some(i) => {
                let left = subvec(&v, 0, i);
                let right = subvec(&v, i + 1, v.len());
                proof {
                    assert(right@ =~= s@.skip(i as int + 1));
                }
                let a = match parse_micros_chars(&left) {
                    Ok(a) => a,
                    Err(_) => {
                        return Err(Error::Parse);
                    },
                };
                let b = match parse_micros_chars(&right) {
                    Ok(b) => b,
                    Err(_) => {
                        return Err(Error::Parse);
                    },
                };
                Ok(Range { start: a, end: b })
            },
            None => Err(Error::Parse),
        }
    }

    /// Parse a range, reporting failure as the message `invnalid range: `
    /// followed by the input.
    pub fn from_arg(s: &str) -> (r: Result<Range, String>)
        ensures
            match r {
                Ok(rg) => {
                    &&& parse_range(s@) == Option::Some((rg.start as int, rg.end as int))
                    &&& range_wf(rg)
                },
                Err(m) => {
                    &&& m@ == "invnalid range: "@ + s@
                    &&& match parse_range(s@) {
                        Option::Some(p) => crate::num::abs_int(p.0) > MAX_MICROS
                            || crate::num::abs_int(p.1) > MAX_MICROS,
                        Option::None => true,
                    }
                },
            },
    {
        match Range::from_str(s) {
            Ok(rg) => Ok(rg),
            Err(_) => Err(concat_str("invnalid range: ", s)),
        }
    }

    /// The textual form `"start-end"`.
    pub fn to_display(&self) -> (r: String)
        ensures
            r@ == fmt_range(*self),
    {
        let mut v = fmt_micros_chars(self.start);
        v.push('-');
        let mut e = fmt_micros_chars(self.end);
        v.append(&mut e);
        proof {
            assert(v@ =~= fmt_range(*self));
        }
        string_of(&v)
    }
}

} // verus!
