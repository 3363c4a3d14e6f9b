//! Axis-aligned boxes given by their top-left and bottom-right corners,
//! with a strict overlap test.

use vstd::prelude::*;
use crate::error::Error;
use crate::num::{parse_micros, parse_micros_chars, MAX_MICROS};
use crate::point::Point;
use crate::text::{split_ws, str_chars, tokenize};

verus! {

/// An axis-aligned box. Coordinates are in micros.
#[derive(Clone, Copy, Debug, PartialEq, Eq, Structural)]
pub struct Rect {
    pub top_left: Point,
    pub bottom_right: Point,
}

/// Corner coordinates stay within twice the parseable magnitude (the
/// bottom-right corner of a parsed box is an origin plus an extent).
pub open spec fn rect_wf(r: Rect) -> bool {
    &&& -2 * MAX_MICROS <= r.top_left.x <= 2 * MAX_MICROS
    &&& -2 * MAX_MICROS <= r.top_left.y <= 2 * MAX_MICROS
    &&& -2 * MAX_MICROS <= r.bottom_right.x <= 2 * MAX_MICROS
    &&& -2 * MAX_MICROS <= r.bottom_right.y <= 2 * MAX_MICROS
}

/// Strict overlap: the boxes share interior, not merely a boundary.
pub open spec fn spec_intersects(a: Rect, b: Rect) -> bool {
    &&& a.top_left.x < b.bottom_right.x
    &&& a.bottom_right.x > b.top_left.x
    &&& a.top_left.y < b.bottom_right.y
    &&& a.bottom_right.y > b.top_left.y
}

/// The origin and extent denoted by a rectangle string: its first four
/// whitespace tokens as `x y w h` (anything after is ignored).
pub open spec fn parse_rect(s: Seq<char>) -> Option<(int, int, int, int)> {
    let ts = tokenize(s);
    if ts.len() < 4 {
        Option::None
    } else {
        match (parse_micros(ts[0]), parse_micros(ts[1]), parse_micros(ts[2]), parse_micros(
            ts[3],
        )) {
            (Option::Some(x), Option::Some(y), Option::Some(w), Option::Some(h)) => Option::Some(
                (x, y, w, h),
            ),
            _ => Option::None,
        }
    }
}

impl Rect {
    pub fn new(top_left: Point, bottom_right: Point) -> (r: Self)
        ensures
            r.top_left == top_left && r.bottom_right == bottom_right,
    {
        Self { top_left, bottom_right }
    }

    fn from_xywh(x: i64, y: i64, w: i64, h: i64) -> (r: Self)
        requires
            -MAX_MICROS <= x <= MAX_MICROS,
            -MAX_MICROS <= y <= MAX_MICROS,
            -MAX_MICROS <= w <= MAX_MICROS,
            -MAX_MICROS <= h <= MAX_MICROS,
        ensures
            r.top_left.x == x,
            r.top_left.y == y,
            r.bottom_right.x == x + w,
            r.bottom_right.y == y + h,
    {
        Self { top_left: Point::from_xy(x, y), bottom_right: Point::from_xy(x + w, y + h) }
    }

    pub fn x(&self) -> (v: i64)
        ensures
            v == self.top_left.x,
    {
        self.top_left.x
    }

    pub fn y(&self) -> (v: i64)
        ensures
            v == self.top_left.y,
    {
        self.top_left.y
    }

    pub fn width(&self) -> (v: i64)
        requires
            rect_wf(*self),
        ensures
            v == self.bottom_right.x - self.top_left.x,
    {
        self.bottom_right.x - self.top_left.x
    }

    pub fn height(&self) -> (v: i64)
        requires
            rect_wf(*self),
        ensures
            v == self.bottom_right.y - self.top_left.y,
    {
        self.bottom_right.y - self.top_left.y
    }

    /// Strict overlap test: false for boxes sharing only a boundary.
    pub fn intersects(&self, other: &Rect) -> (b: bool)
        ensures
            b == spec_intersects(*self, *other),
    {
        self.top_left.x < other.bottom_right.x && self.bottom_right.x > other.top_left.x
            && self.top_left.y < other.bottom_right.y && self.bottom_right.y > other.top_left.y
    }

    /// Parse `"x y w h"`. `Ok` exactly when the first four whitespace
    /// tokens are decimals within [`MAX_MICROS`]; the corners are the
    /// origin and the origin plus the extent.
    pub fn from_str(s: &str) -> (r: Result<Rect, Error>)
        ensures
            match r {
                Ok(rc) => {
                    &&& rect_wf(rc)
                    &&& match parse_rect(s@) {
                        Option::Some(p) => {
                            &&& rc.top_left.x == p.0
                            &&& rc.top_left.y == p.1
                            &&& rc.bottom_right.x == p.0 + p.2
                            &&& rc.bottom_right.y == p.1 + p.3
                        },
                        Option::None => false,
                    }
                },
                Err(e) => {
                    &&& e == Error::Parse
                    &&& match parse_rect(s@) {
                        Option::Some(p) => crate::num::abs_int(p.0) > MAX_MICROS
                            || crate::num::abs_int(p.1) > MAX_MICROS || crate::num::abs_int(p.2)
                            > MAX_MICROS || crate::num::abs_int(p.3) > MAX_MICROS,
                        Option::None => true,
                    }
                },
            },
    {
        let v = str_chars(s);
        let ts = split_ws(&v);
        if ts.len() < 4 {
            return Err(Error::Parse);
        }
        proof {
            assert(ts.deep_view()[0] == ts@[0]@);
            assert(ts.deep_view()[1] == ts@[1]@);
            assert(ts.deep_view()[2] == ts@[2]@);
            assert(ts.deep_view()[3] == ts@[3]@);
        }
        let x = match parse_micros_chars(&ts[0]) {
            Ok(x) => x,
            Err(_) => {
                return Err(Error::Parse);
            },
        };
        let y = match parse_micros_chars(&ts[1]) {
            Ok(y) => y,
            Err(_) => {
                return Err(Error::Parse);
            },
        };
        let w = match parse_micros_chars(&ts[2]) {
            Ok(w) => w,
            Err(_) => {
                return Err(Error::Parse);
            },
        };
        let h = match parse_micros_chars(&ts[3]) {
            Ok(h) => h,
            Err(_) => {
                return Err(Error::Parse);
            },
        };
        Ok(Rect::from_xywh(x, y, w, h))
    }
}

} // verus!
