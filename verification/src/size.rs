//! Canvas and crop dimensions in micro-units, with the `"WxH"` textual
//! form (a bare `"N"` means a square).

use vstd::prelude::*;
use crate::error::Error;
use crate::num::{fmt_micros, fmt_micros_chars, parse_micros, parse_micros_chars, MAX_MICROS};
use crate::text::{concat_str, find_char, find_char_in, str_chars, string_of, subvec};

verus! {

/// Output or dataset dimensions. `w` and `h` are in micros and never
/// negative.
#[derive(Clone, Copy, Debug, PartialEq, Eq, Structural)]
pub struct Size {
    pub w: i64,
    pub h: i64,
}

/// Dimensions are non-negative and within the parseable magnitude.
pub open spec fn size_wf(s: Size) -> bool {
    &&& 0 <= s.w <= MAX_MICROS
    &&& 0 <= s.h <= MAX_MICROS
}

/// The width and height denoted by a size string: `"WxH"` splits at the
/// first `x`, a bare number is a square, and a negative bound is refused.
pub open spec fn parse_size(s: Seq<char>) -> Option<(int, int)> {
    match find_char(s, 'x') {
        Option::Some(i) => match (
            parse_micros(s.subrange(0, i as int)),
            parse_micros(s.skip(i as int + 1)),
        ) {
            (Option::Some(w), Option::Some(h)) => if w >= 0 && h >= 0 {
                Option::Some((w, h))
            } else {
                Option::None
            },
            _ => Option::None,
        },
        Option::None => match parse_micros(s) {
            Option::Some(w) => if w >= 0 {
                Option::Some((w, w))
            } else {
                Option::None
            },
            Option::None => Option::None,
        },
    }
}

/// The textual form of a size: width, `x`, height.
pub open spec fn fmt_size(s: Size) -> Seq<char> {
    fmt_micros(s.w as int) + seq!['x'] + fmt_micros(s.h as int)
}

impl Size {
    pub fn new(w: i64, h: i64) -> (s: Self)
        requires
            0 <= w <= MAX_MICROS,
            0 <= h <= MAX_MICROS,
        ensures
            s.w == w && s.h == h,
    {
        Self { w, h }
    }

    pub fn width(&self) -> (v: i64)
        ensures
            v == self.w,
    {
        self.w
    }

    pub fn height(&self) -> (v: i64)
        ensures
            v == self.h,
    {
        self.h
    }

    /// Parse a size string. `Ok` exactly when the text denotes a size
    /// whose bounds stay within [`MAX_MICROS`].
    pub fn from_str(s: &str) -> (r: Result<Size, Error>)
        ensures
            match r {
                Ok(sz) => {
                    &&& parse_size(s@) == Option::Some((sz.w as int, sz.h as int))
                    &&& size_wf(sz)
                },
                Err(e) => {
                    &&& e == Error::Parse
                    &&& match parse_size(s@) {
                        Option::Some(p) => p.0 > MAX_MICROS || p.1 > MAX_MICROS,
                        Option::None => true,
                    }
                },
            },
    {
        let v = str_chars(s);
        match find_char_in(&v, 'x') {
            Some(i) => {
                let left = subvec(&v, 0, i);
                let right = subvec(&v, i + 1, v.len());
                proof {
                    assert(right@ =~= s@.skip(i as int + 1));
                }
                let w = match parse_micros_chars(&left) {
                    Ok(w) => w,
                    Err(_) => {
                        return Err(Error::Parse);
                    },
                };
                let h = match parse_micros_chars(&right) {
                    Ok(h) => h,
                    Err(_) => {
                        return Err(Error::Parse);
                    },
                };
                if w < 0 || h < 0 {
                    return Err(Error::Parse);
                }
                Ok(Size { w, h })
            },
            None => {
                let w = match parse_micros_chars(&v) {
                    Ok(w) => w,
                    Err(_) => {
                        return Err(Error::Parse);
                    },
                };
                if w < 0 {
                    return Err(Error::Parse);
                }
                Ok(Size { w, h: w })
            },
        }
    }

    /// Parse a size, reporting failure as the message `invalid size: `
    /// followed by the input.
    pub fn from_arg(s: &str) -> (r: Result<Size, String>)
        ensures
            match r {
                Ok(sz) => {
                    &&& parse_size(s@) == Option::Some((sz.w as int, sz.h as int))
                    &&& size_wf(sz)
                },
                Err(m) => {
                    &&& m@ == "invalid size: "@ + s@
                    &&& match parse_size(s@) {
                        Option::Some(p) => p.0 > MAX_MICROS || p.1 > MAX_MICROS,
                        Option::None => true,
                    }
                },
            },
    {
        match Size::from_str(s) {
            Ok(sz) => Ok(sz),
            Err(_) => Err(concat_str("invalid size: ", s)),
        }
    }

    /// The textual form `"WxH"`.
    pub fn to_display(&self) -> (r: String)
        ensures
            r@ == fmt_size(*self),
    {
        let mut v = fmt_micros_chars(self.w);
        v.push('x');
        let mut h = fmt_micros_chars(self.h);
        v.append(&mut h);
        proof {
            assert(v@ =~= fmt_size(*self));
        }
        string_of(&v)
    }
}

} // verus!
