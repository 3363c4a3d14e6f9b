//! Geographic coordinates in micro-degrees, their degrees-minutes-seconds
//! textual form with carry propagation, and geographic bounding
//! rectangles.

use vstd::prelude::*;
use vstd::arithmetic::div_mod::{
    lemma_div_is_ordered, lemma_div_multiples_vanish, lemma_fundamental_div_mod,
    lemma_fundamental_div_mod_converse,
};
use crate::digits::{
    dec_digits, digits_prefix_len, digits_to_u64, digits_val, fmt_u64, is_digit,
    lemma_dec_digits, scan_digits, zero_chars,
};
use crate::error::Error;
use crate::num::{abs_int, MAX_MICROS};
use crate::text::{concat_str, find_char, find_char_in, str_chars, string_of, subvec};

verus! {

/// A latitude/longitude pair. Both are signed micro-degrees (millionths
/// of a degree); north and east are positive.
#[derive(Clone, Copy, Debug, PartialEq, Eq, Structural)]
pub struct LatLng {
    pub lat: i64,
    pub lng: i64,
}

/// Coordinates stay within the parseable magnitude.
pub open spec fn latlng_wf(ll: LatLng) -> bool {
    &&& abs_int(ll.lat as int) <= MAX_MICROS
    &&& abs_int(ll.lng as int) <= MAX_MICROS
}

/// Degrees, minutes and seconds of a magnitude in micro-degrees, before
/// carry: minutes truncate, seconds round to nearest (half up).
pub open spec fn dms_raw(a: int) -> (int, int, int) {
    let d = a / 1_000_000;
    let fm = a % 1_000_000;
    let m = (fm * 3) / 50_000;
    let s = (fm * 9 + 1250) / 2500 - m * 60;
    (d, m, s)
}

/// Carry propagation: sixty seconds make a minute, sixty minutes a
/// degree.
pub open spec fn dms_carry(t: (int, int, int)) -> (int, int, int) {
    let m2 = if t.2 == 60 {
        t.1 + 1
    } else {
        t.1
    };
    let s2: int = if t.2 == 60 {
        0
    } else {
        t.2
    };
    if m2 == 60 {
        (t.0 + 1, 0, s2)
    } else {
        (t.0, m2, s2)
    }
}

/// Degrees, minutes and seconds of a magnitude in micro-degrees.
pub open spec fn dms_of(a: int) -> (int, int, int) {
    dms_carry(dms_raw(a))
}

/// The micro-degrees nearest to `d` degrees, `m` minutes, `s` seconds
/// (half rounds up).
pub open spec fn dms_to_micro(d: int, m: int, s: int) -> int {
    d * 1_000_000 + ((60 * m + s) * 5000 + 9) / 18
}

/// A number padded with zeros to at least `w` digits.
pub open spec fn padded(n: int, w: nat) -> Seq<char> {
    let ds = dec_digits(n as nat);
    if ds.len() >= w {
        ds
    } else {
        zero_chars((w - ds.len()) as nat) + ds
    }
}

/// The body of one DMS coordinate: degrees padded to `w`, then `°`,
/// minutes padded to two, `′`, seconds padded to two, `″`.
pub open spec fn dms_body(t: (int, int, int), w: nat) -> Seq<char> {
    padded(t.0, w) + seq!['°'] + padded(t.1, 2) + seq!['′'] + padded(t.2, 2) + seq!['″']
}

/// One coordinate in DMS text: the body and the hemisphere letter.
pub open spec fn fmt_dms(v: int, w: nat, pos: char, neg: char) -> Seq<char> {
    let hemi = if v < 0 {
        neg
    } else {
        pos
    };
    dms_body(dms_of(abs_int(v)), w) + seq![hemi]
}

/// The DMS text of a pair: latitude (two-digit degrees, `N`/`S`), a
/// space, longitude (three-digit degrees, `E`/`W`).
pub open spec fn fmt_latlng(ll: LatLng) -> Seq<char> {
    fmt_dms(ll.lat as int, 2, 'N', 'S') + seq![' '] + fmt_dms(ll.lng as int, 3, 'E', 'W')
}

/// A match of one DMS coordinate at position `i`: digit runs for degrees,
/// minutes and seconds separated by `°`, a prime (`′` or `'`) and a
/// double prime (`″` or `"`); gives the three numbers and the position
/// just after the double prime.
pub open spec fn dms_match(s: Seq<char>, i: int) -> Option<((int, int, int), int)> {
    let dl = digits_prefix_len(s.skip(i)) as int;
    let p1 = i + dl;
    if dl < 1 || !(p1 < s.len() && s[p1] == '°') {
        Option::None
    } else {
        let ml = digits_prefix_len(s.skip(p1 + 1)) as int;
        let p2 = p1 + 1 + ml;
        if ml < 1 || !(p2 < s.len() && (s[p2] == '′' || s[p2] == '\'')) {
            Option::None
        } else {
            let sl = digits_prefix_len(s.skip(p2 + 1)) as int;
            let p3 = p2 + 1 + sl;
            if sl < 1 || !(p3 < s.len() && (s[p3] == '″' || s[p3] == '"')) {
                Option::None
            } else {
                Option::Some(
                    (
                        (
                            digits_val(s.subrange(i, p1)),
                            digits_val(s.subrange(p1 + 1, p2)),
                            digits_val(s.subrange(p2 + 1, p3)),
                        ),
                        p3 + 1,
                    ),
                )
            }
        }
    }
}

/// A full match at position `i`: a latitude coordinate, its hemisphere
/// letter (`N`/`S`, either case), a space, a longitude coordinate and its
/// hemisphere letter (`E`/`W`, either case).
pub open spec fn latlng_match(s: Seq<char>, i: int) -> Option<
    ((int, int, int), bool, (int, int, int), bool),
> {
    match dms_match(s, i) {
        Option::Some((t1, j)) => {
            if j < s.len() && (s[j] == 'N' || s[j] == 'n' || s[j] == 'S' || s[j] == 's') && j + 1
                < s.len() && s[j + 1] == ' ' {
                match dms_match(s, j + 2) {
                    Option::Some((t2, k)) => {
                        if k < s.len() && (s[k] == 'E' || s[k] == 'e' || s[k] == 'W' || s[k]
                            == 'w') {
                            Option::Some(
                                (t1, s[j] == 'S' || s[j] == 's', t2, s[k] == 'W' || s[k] == 'w'),
                            )
                        } else {
                            Option::None
                        }
                    },
                    Option::None => Option::None,
                }
            } else {
                Option::None
            }
        },
        Option::None => Option::None,
    }
}

/// The leftmost full match at or after position `i`.
pub open spec fn latlng_find(s: Seq<char>, i: int) -> Option<
    ((int, int, int), bool, (int, int, int), bool),
>
    decreases s.len() - i + 1 when i <= s.len() + 1
{
    if i > s.len() {
        Option::None
    } else {
        match latlng_match(s, i) {
            Option::Some(m) => Option::Some(m),
            Option::None => latlng_find(s, i + 1),
        }
    }
}

/// The signed micro-degrees a match denotes.
pub open spec fn match_value(t: (int, int, int), negative: bool) -> int {
    if negative {
        -dms_to_micro(t.0, t.1, t.2)
    } else {
        dms_to_micro(t.0, t.1, t.2)
    }
}

/// Parsing a coordinate pair out of `s` fails: no match anywhere, or a
/// matched value beyond the parseable magnitude.
pub open spec fn latlng_parse_fails(s: Seq<char>) -> bool {
    match latlng_find(s, 0) {
        Option::Some((t1, south, t2, west)) => abs_int(match_value(t1, south)) > MAX_MICROS
            || abs_int(match_value(t2, west)) > MAX_MICROS,
        Option::None => true,
    }
}

/// Bounds of the raw conversion: minutes below sixty, seconds at most
/// sixty (sixty only when rounding carries a whole minute).
pub proof fn lemma_dms_raw_bounds(a: int)
    requires
        a >= 0,
    ensures
        ({
            let t = dms_raw(a);
            &&& t.0 == a / 1_000_000
            &&& 0 <= t.1 <= 59
            &&& 0 <= t.2 <= 60
        }),
{
    let fm = a % 1_000_000;
    assert(0 <= fm < 1_000_000);
    let q = (fm * 3) / 50_000;
    let r = (fm * 3) % 50_000;
    lemma_fundamental_div_mod(fm * 3, 50_000);
    assert(fm * 3 == 50_000 * q + r);
    assert(0 <= r < 50_000);
    assert(q <= 59) by {
        if q >= 60 {
            assert(50_000 * q >= 3_000_000);
        }
    }
    assert(q >= 0) by {
        if q < 0 {
            assert(50_000 * q <= -50_000);
        }
    }
    let s1 = (3 * r + 1250) / 2500;
    let r1 = (3 * r + 1250) % 2500;
    lemma_fundamental_div_mod(3 * r + 1250, 2500);
    assert(0 <= r1 < 2500);
    assert(0 <= s1 <= 60) by {
        if s1 > 60 {
            assert(2500 * s1 >= 2500 * 61);
            assert(3 * r + 1250 < 2500 * 61);
        }
        if s1 < 0 {
            assert(2500 * s1 <= -2500);
        }
    }
    assert(fm * 9 + 1250 == 2500 * (60 * q + s1) + r1) by {
        assert(fm * 9 == 3 * (fm * 3));
        assert(3 * (50_000 * q + r) == 150_000 * q + 3 * r);
        assert(2500 * (60 * q + s1) == 150_000 * q + 2500 * s1);
        assert(3 * r + 1250 == 2500 * s1 + r1);
    }
    lemma_fundamental_div_mod_converse(fm * 9 + 1250, 2500, 60 * q + s1, r1);
    assert((fm * 9 + 1250) / 2500 == 60 * q + s1);
}

/// Bounds after carry: minutes and seconds below sixty.
pub proof fn lemma_dms_of_bounds(a: int)
    requires
        a >= 0,
    ensures
        ({
            let t = dms_of(a);
            &&& a / 1_000_000 <= t.0 <= a / 1_000_000 + 1
            &&& 0 <= t.1 <= 59
            &&& 0 <= t.2 <= 59
        }),
{
    lemma_dms_raw_bounds(a);
}

impl LatLng {
    pub fn new(lat: i64, lng: i64) -> (ll: LatLng)
        ensures
            ll.lat == lat && ll.lng == lng,
    {
        LatLng { lat, lng }
    }

    /// The DMS textual form of this pair.
    pub fn to_dms(&self) -> (r: String)
        requires
            latlng_wf(*self),
        ensures
            r@ == fmt_latlng(*self),
    {
        let mut out: Vec<char> = Vec::new();
        push_dms(&mut out, self.lat, 2, 'N', 'S');
        out.push(' ');
        push_dms(&mut out, self.lng, 3, 'E', 'W');
        proof {
            assert(out@ =~= fmt_latlng(*self));
        }
        string_of(&out)
    }

    /// Parse DMS text: the leftmost match of the coordinate pattern
    /// anywhere in the string. `Ok` exactly when a match exists whose
    /// values stay within [`MAX_MICROS`].
    pub fn from_str(s: &str) -> (r: Result<LatLng, Error>)
        ensures
            match r {
                Ok(ll) => {
                    &&& latlng_wf(ll)
                    &&& match latlng_find(s@, 0) {
                        Option::Some((t1, south, t2, west)) => ll.lat == match_value(t1, south)
                            && ll.lng == match_value(t2, west),
                        Option::None => false,
                    }
                },
                Err(e) => {
                    &&& e == Error::Parse
                    &&& match latlng_find(s@, 0) {
                        Option::Some((t1, south, t2, west)) => abs_int(match_value(t1, south))
                            > MAX_MICROS || abs_int(match_value(t2, west)) > MAX_MICROS,
                        Option::None => true,
                    }
                },
            },
    {
        let v = str_chars(s);
        latlng_from_chars(&v)
    }
}

/// The outcome of trying the coordinate pattern at one position: no
/// match, or the eight parts of a match (a number is `None` when it
/// exceeds `u64`).
enum MatchOut {
    No,
    Matched(
        Option<u64>,
        Option<u64>,
        Option<u64>,
        bool,
        Option<u64>,
        Option<u64>,
        Option<u64>,
        bool,
    ),
}

/// The outcome of matching one DMS coordinate: no match, or the three
/// numbers (each `None` when it exceeds `u64`) and the end position.
enum DmsOut {
    No,
    Matched(Option<u64>, Option<u64>, Option<u64>, usize),
}

/// `Some(x)` stands for exactly `n`, `None` for a number beyond `u64`.
pub open spec fn opt_u64_is(o: Option<u64>, n: int) -> bool {
    match o {
        Option::Some(x) => x == n,
        Option::None => n > u64::MAX,
    }
}

/// Try one DMS coordinate at position `i`.
fn try_dms(v: &Vec<char>, i: usize) -> (r: DmsOut)
    requires
        i <= v@.len(),
    ensures
        match r {
            DmsOut::No => dms_match(v@, i as int) is None,
            DmsOut::Matched(dv, mv, sv, end) => match dms_match(v@, i as int) {
                Option::Some((t, e)) => t.0 >= 0 && t.1 >= 0 && t.2 >= 0 && opt_u64_is(dv, t.0)
                    && opt_u64_is(mv, t.1) && opt_u64_is(sv, t.2) && end == e,
                Option::None => false,
            },
        },
{
    let j1 = scan_digits(v, i);
    if j1 == i || j1 >= v.len() || v[j1] != '°' {
        return DmsOut::No;
    }
    proof {
        lemma_scan_subrange(v@, i as int, j1 as int);
    }
    let j2 = scan_digits(v, j1 + 1);
    if j2 == j1 + 1 || j2 >= v.len() || (v[j2] != '′' && v[j2] != '\'') {
        return DmsOut::No;
    }
    proof {
        lemma_scan_subrange(v@, j1 as int + 1, j2 as int);
    }
    let j3 = scan_digits(v, j2 + 1);
    if j3 == j2 + 1 || j3 >= v.len() || (v[j3] != '″' && v[j3] != '"') {
        return DmsOut::No;
    }
    proof {
        lemma_scan_subrange(v@, j2 as int + 1, j3 as int);
    }
    let dv = digits_to_u64(v, i, j1);
    let mv = digits_to_u64(v, j1 + 1, j2);
    let sv = digits_to_u64(v, j2 + 1, j3);
    proof {
        assert(crate::digits::all_digits(v@.subrange(i as int, j1 as int)));
        assert(crate::digits::all_digits(v@.subrange(j1 as int + 1, j2 as int)));
        assert(crate::digits::all_digits(v@.subrange(j2 as int + 1, j3 as int)));
        crate::digits::lemma_digits_val_bounds(v@.subrange(i as int, j1 as int));
        crate::digits::lemma_digits_val_bounds(v@.subrange(j1 as int + 1, j2 as int));
        crate::digits::lemma_digits_val_bounds(v@.subrange(j2 as int + 1, j3 as int));
    }
    DmsOut::Matched(dv, mv, sv, j3 + 1)
}

/// After a scan, the characters of the scanned run are digits.
proof fn lemma_scan_subrange(s: Seq<char>, i: int, j: int)
    requires
        0 <= i <= j <= s.len(),
        j - i == digits_prefix_len(s.skip(i)),
    ensures
        forall|k: int| i <= k < j ==> is_digit(#[trigger] s[k]),
{
    crate::digits::lemma_digits_prefix(s.skip(i));
    assert forall|k: int| i <= k < j implies is_digit(#[trigger] s[k]) by {
        assert(s.skip(i)[k - i] == s[k]);
    }
}

/// Try the full coordinate pattern at position `i`.
fn try_match(v: &Vec<char>, i: usize) -> (r: MatchOut)
    requires
        i <= v@.len() + 1,
    ensures
        match r {
            MatchOut::No => latlng_match(v@, i as int) is None,
            MatchOut::Matched(d1, m1, s1, south, d2, m2, s2, west) => match latlng_match(
                v@,
                i as int,
            ) {
                Option::Some((t1, sf, t2, wf_)) => t1.0 >= 0 && t1.1 >= 0 && t1.2 >= 0 && t2.0
                    >= 0 && t2.1 >= 0 && t2.2 >= 0 && opt_u64_is(d1, t1.0) && opt_u64_is(
                    m1,
                    t1.1,
                ) && opt_u64_is(s1, t1.2) && sf == south && opt_u64_is(d2, t2.0) && opt_u64_is(
                    m2,
                    t2.1,
                ) && opt_u64_is(s2, t2.2) && wf_ == west,
                Option::None => false,
            },
        },
{
    if i > v.len() {
        return MatchOut::No;
    }
    let (dv1, mv1, sv1, j) = match try_dms(v, i) {
        DmsOut::No => {
            return MatchOut::No;
        },
        DmsOut::Matched(a, b, c, j) => (a, b, c, j),
    };
    if !(j < v.len()) {
        return MatchOut::No;
    }
    let hemi1 = v[j];
    if hemi1 != 'N' && hemi1 != 'n' && hemi1 != 'S' && hemi1 != 's' {
        return MatchOut::No;
    }
    if !(j + 1 < v.len()) || v[j + 1] != ' ' {
        return MatchOut::No;
    }
    let (dv2, mv2, sv2, k) = match try_dms(v, j + 2) {
        DmsOut::No => {
            return MatchOut::No;
        },
        DmsOut::Matched(a, b, c, k) => (a, b, c, k),
    };
    if !(k < v.len()) {
        return MatchOut::No;
    }
    let hemi2 = v[k];
    if hemi2 != 'E' && hemi2 != 'e' && hemi2 != 'W' && hemi2 != 'w' {
        return MatchOut::No;
    }
    MatchOut::Matched(
        dv1,
        mv1,
        sv1,
        hemi1 == 'S' || hemi1 == 's',
        dv2,
        mv2,
        sv2,
        hemi2 == 'W' || hemi2 == 'w',
    )
}

/// Micro-degrees of three matched numbers and a hemisphere sign. `Some`
/// exactly when the magnitude stays within [`MAX_MICROS`].
fn micro_of_parts(
    dv: Option<u64>,
    mv: Option<u64>,
    sv: Option<u64>,
    neg: bool,
    Ghost(t): Ghost<(int, int, int)>,
) -> (r: Option<i64>)
    requires
        t.0 >= 0 && t.1 >= 0 && t.2 >= 0,
        opt_u64_is(dv, t.0),
        opt_u64_is(mv, t.1),
        opt_u64_is(sv, t.2),
    ensures
        match r {
            Some(x) => x == match_value(t, neg) && abs_int(x as int) <= MAX_MICROS,
            None => abs_int(match_value(t, neg)) > MAX_MICROS,
        },
{
    proof {
        lemma_micro_monotone(t);
    }
    let d = match dv {
        Some(x) => x,
        None => {
            return None;
        },
    };
    let m = match mv {
        Some(x) => x,
        None => {
            return None;
        },
    };
    let s = match sv {
        Some(x) => x,
        None => {
            return None;
        },
    };
    if d > 1_000_000_000 {
        return None;
    }
    let inner: u128 = ((60 * (m as u128) + (s as u128)) * 5000 + 9) / 18;
    let total: u128 = (d as u128) * 1_000_000 + inner;
    proof {
        assert(inner == ((60 * t.1 + t.2) * 5000 + 9) / 18);
        assert(total == dms_to_micro(t.0, t.1, t.2));
    }
    if total > MAX_MICROS as u128 {
        return None;
    }
    let x = total as i64;
    if neg {
        Some(-x)
    } else {
        Some(x)
    }
}

/// The micro-degrees of a coordinate grow with each component, and pass
/// the cap whenever one component passes `u64` or the degrees pass a
/// billion.
proof fn lemma_micro_monotone(t: (int, int, int))
    requires
        t.0 >= 0 && t.1 >= 0 && t.2 >= 0,
    ensures
        dms_to_micro(t.0, t.1, t.2) >= 0,
        dms_to_micro(t.0, t.1, t.2) >= t.0 * 1_000_000,
        t.0 > 1_000_000_000 ==> dms_to_micro(t.0, t.1, t.2) > MAX_MICROS,
        t.1 > u64::MAX ==> dms_to_micro(t.0, t.1, t.2) > MAX_MICROS,
        t.2 > u64::MAX ==> dms_to_micro(t.0, t.1, t.2) > MAX_MICROS,
{
    let m = t.1;
    let sec = t.2;
    let x = (60 * m + sec) * 5000 + 9;
    assert(x >= 0) by (nonlinear_arith)
        requires
            x == (60 * m + sec) * 5000 + 9,
            m >= 0 && sec >= 0,
    ;
    assert(x / 18 >= 0) by {
        lemma_div_is_ordered(0, x, 18);
        assert(0int / 18 == 0);
    }
    assert(dms_to_micro(t.0, t.1, t.2) >= t.0 * 1_000_000);
    let deg = t.0;
    if deg > 1_000_000_000 {
        assert(deg * 1_000_000 > MAX_MICROS) by (nonlinear_arith)
            requires
                deg > 1_000_000_000,
        ;
    }
    if t.1 > u64::MAX || t.2 > u64::MAX {
        assert(x >= 18 * (MAX_MICROS + 1)) by (nonlinear_arith)
            requires
                x == (60 * m + sec) * 5000 + 9,
                m >= 0 && sec >= 0,
                m > u64::MAX || sec > u64::MAX,
        ;
        lemma_div_is_ordered(18 * (MAX_MICROS + 1), x, 18);
        lemma_div_multiples_vanish(MAX_MICROS + 1, 18);
        assert(x / 18 >= MAX_MICROS + 1);
        assert(deg * 1_000_000 >= 0) by (nonlinear_arith)
            requires
                deg >= 0,
        ;
    }
}

/// Append one coordinate's DMS text.
#[verifier::rlimit(100)]
fn push_dms(out: &mut Vec<char>, v: i64, w: usize, pos: char, neg: char)
    requires
        abs_int(v as int) <= MAX_MICROS,
    ensures
        final(out)@ == old(out)@ + fmt_dms(v as int, w as nat, pos, neg),
{
    let a: u64 = if v < 0 {
        (-(v as i128)) as u64
    } else {
        v as u64
    };
    proof {
        assert(a == abs_int(v as int));
        lemma_dms_of_bounds(a as int);
        lemma_dms_raw_bounds(a as int);
    }
    let d0 = a / 1_000_000;
    let fm = a % 1_000_000;
    let m0 = (fm * 3) / 50_000;
    let s0 = (fm * 9 + 1250) / 2500 - m0 * 60;
    let (m1, s1) = if s0 == 60 {
        (m0 + 1, 0)
    } else {
        (m0, s0)
    };
    let (d, m, s) = if m1 == 60 {
        (d0 + 1, 0, s1)
    } else {
        (d0, m1, s1)
    };
    proof {
        assert((d as int, m as int, s as int) == dms_of(a as int));
    }
    push_padded(out, d, w);
    out.push('°');
    push_padded(out, m, 2);
    out.push('′');
    push_padded(out, s, 2);
    out.push('″');
    if v < 0 {
        out.push(neg);
    } else {
        out.push(pos);
    }
    proof {
        assert(final(out)@ =~= old(out)@ + fmt_dms(v as int, w as nat, pos, neg));
    }
}

/// Append a number padded with zeros to at least `w` digits.
fn push_padded(out: &mut Vec<char>, n: u64, w: usize)
    ensures
        final(out)@ == old(out)@ + padded(n as int, w as nat),
{
    let mut ds = fmt_u64(n);
    proof {
        lemma_dec_digits(n as nat);
    }
    if ds.len() < w {
        let pad = w - ds.len();
        let mut k: usize = 0;
        while k < pad
            invariant
                k <= pad,
                pad == w - dec_digits(n as nat).len(),
                out@ == old(out)@ + zero_chars(k as nat),
            decreases pad - k,
        {
            out.push('0');
            proof {
                assert(old(out)@ + zero_chars((k + 1) as nat) =~= (old(out)@ + zero_chars(
                    k as nat,
                )).push('0'));
            }
            k = k + 1;
        }
    }
    out.append(&mut ds);
    proof {
        assert(final(out)@ =~= old(out)@ + padded(n as int, w as nat));
    }
}

/// A geographic bounding rectangle: its northwest and southeast corners.
#[derive(Clone, Copy, Debug, PartialEq, Eq, Structural)]
pub struct Rect {
    pub nw: LatLng,
    pub se: LatLng,
}

/// Both corners stay within the parseable magnitude.
pub open spec fn georect_wf(r: Rect) -> bool {
    latlng_wf(r.nw) && latlng_wf(r.se)
}

impl Rect {
    pub fn new(nw: LatLng, se: LatLng) -> (r: Self)
        ensures
            r.nw == nw && r.se == se,
    {
        Self { nw, se }
    }

    /// Parse `"nw-se"`: two DMS coordinates split at the first `-`.
    pub fn from_str(s: &str) -> (r: Result<Rect, Error>)
        ensures
            match r {
                Ok(rc) => {
                    &&& georect_wf(rc)
                    &&& match find_char(s@, '-') {
                        Option::Some(cut) => {
                            &&& match latlng_find(s@.subrange(0, cut as int), 0) {
                                Option::Some((t1, south, t2, west)) => rc.nw.lat == match_value(
                                    t1,
                                    south,
                                ) && rc.nw.lng == match_value(t2, west),
                                Option::None => false,
                            }
                            &&& match latlng_find(s@.skip(cut as int + 1), 0) {
                                Option::Some((t1, south, t2, west)) => rc.se.lat == match_value(
                                    t1,
                                    south,
                                ) && rc.se.lng == match_value(t2, west),
                                Option::None => false,
                            }
                        },
                        Option::None => false,
                    }
                },
                Err(e) => {
                    &&& e == Error::Parse
                    &&& match find_char(s@, '-') {
                        Option::Some(cut) => latlng_parse_fails(s@.subrange(0, cut as int))
                            || latlng_parse_fails(s@.skip(cut as int + 1)),
                        Option::None => true,
                    }
                },
            },
    {
        let v = str_chars(s);
        match find_char_in(&v, '-') {
            Some(cut) => {
                let n = v.len();
                let left = subvec(&v, 0, cut);
                let right = subvec(&v, cut + 1, n);
                proof {
                    assert(right@ =~= s@.skip(cut as int + 1));
                }
                let nw = match latlng_from_chars(&left) {
                    Ok(ll) => ll,
                    Err(_) => {
                        return Err(Error::Parse);
                    },
                };
                let se = match latlng_from_chars(&right) {
                    Ok(ll) => ll,
                    Err(_) => {
                        return Err(Error::Parse);
                    },
                };
                Ok(Rect { nw, se })
            },
            None => Err(Error::Parse),
        }
    }

    /// Parse a rectangle, reporting failure as the message
    /// `invalid rect: ` followed by the input.
    pub fn from_arg(s: &str) -> (r: Result<Rect, String>)
        ensures
            match r {
                Ok(rc) => {
                    &&& georect_wf(rc)
                    &&& match find_char(s@, '-') {
                        Option::Some(cut) => {
                            &&& match latlng_find(s@.subrange(0, cut as int), 0) {
                                Option::Some((t1, south, t2, west)) => rc.nw.lat == match_value(
                                    t1,
                                    south,
                                ) && rc.nw.lng == match_value(t2, west),
                                Option::None => false,
                            }
                            &&& match latlng_find(s@.skip(cut as int + 1), 0) {
                                Option::Some((t1, south, t2, west)) => rc.se.lat == match_value(
                                    t1,
                                    south,
                                ) && rc.se.lng == match_value(t2, west),
                                Option::None => false,
                            }
                        },
                        Option::None => false,
                    }
                },
                Err(m) => {
                    &&& m@ == "invalid rect: "@ + s@
                    &&& match find_char(s@, '-') {
                        Option::Some(cut) => latlng_parse_fails(s@.subrange(0, cut as int))
                            || latlng_parse_fails(s@.skip(cut as int + 1)),
                        Option::None => true,
                    }
                },
            },
    {
        match Rect::from_str(s) {
            Ok(rc) => Ok(rc),
            Err(_) => Err(concat_str("invalid rect: ", s)),
        }
    }

    /// The textual form: the corners' DMS forms joined with `-`.
    pub fn to_display(&self) -> (r: String)
        requires
            georect_wf(*self),
        ensures
            r@ == fmt_latlng(self.nw) + seq!['-'] + fmt_latlng(self.se),
    {
        let a = self.nw.to_dms();
        let b = self.se.to_dms();
        let mut v = str_chars(a.as_str());
        v.push('-');
        let mut bv = str_chars(b.as_str());
        v.append(&mut bv);
        proof {
            assert(v@ =~= fmt_latlng(self.nw) + seq!['-'] + fmt_latlng(self.se));
        }
        string_of(&v)
    }
}

/// Parse a coordinate pair out of a character vector (the worker behind
/// [`LatLng::from_str`]).
fn latlng_from_chars(v: &Vec<char>) -> (r: Result<LatLng, Error>)
    ensures
        match r {
            Ok(ll) => {
                &&& latlng_wf(ll)
                &&& match latlng_find(v@, 0) {
                    Option::Some((t1, south, t2, west)) => ll.lat == match_value(t1, south)
                        && ll.lng == match_value(t2, west),
                    Option::None => false,
                }
            },
            Err(e) => {
                &&& e == Error::Parse
                &&& match latlng_find(v@, 0) {
                    Option::Some((t1, south, t2, west)) => abs_int(match_value(t1, south))
                        > MAX_MICROS || abs_int(match_value(t2, west)) > MAX_MICROS,
                    Option::None => true,
                }
            },
        },
{
    let mut i: usize = 0;
    loop
        invariant
            i <= v@.len(),
            latlng_find(v@, 0) == latlng_find(v@, i as int),
        decreases v@.len() - i,
    {
        match try_match(v, i) {
            MatchOut::Matched(d1, m1, s1, south, d2, m2, s2, west) => {
                let ghost mm = latlng_match(v@, i as int)->Some_0;
                proof {
                    assert(latlng_find(v@, i as int) == Option::Some(mm));
                }
                let lat = match micro_of_parts(d1, m1, s1, south, Ghost(mm.0)) {
                    Some(x) => x,
                    None => {
                        return Err(Error::Parse);
                    },
                };
                let lng = match micro_of_parts(d2, m2, s2, west, Ghost(mm.2)) {
                    Some(x) => x,
                    None => {
                        return Err(Error::Parse);
                    },
                };
                return Ok(LatLng { lat, lng });
            },
            MatchOut::No => {
                if i == v.len() {
                    proof {
                        assert(v@.skip(v@.len() as int) =~= Seq::<char>::empty());
                        assert(digits_prefix_len(Seq::<char>::empty()) == 0);
                        assert(dms_match(v@, i as int) is None);
                        assert(latlng_find(v@, i + 1) is None);
                        assert(latlng_find(v@, i as int) is None);
                    }
                    return Err(Error::Parse);
                }
                i = i + 1;
            },
        }
    }
}


/// A padded number is a digit string denoting that number.
pub proof fn lemma_padded(n: int, w: nat)
    requires
        n >= 0,
    ensures
        crate::digits::all_digits(padded(n, w)),
        digits_val(padded(n, w)) == n,
        padded(n, w).len() >= 1,
        padded(n, w).len() >= w,
{
    lemma_dec_digits(n as nat);
    let ds = dec_digits(n as nat);
    if ds.len() < w {
        let k = (w - ds.len()) as nat;
        let pd = zero_chars(k) + ds;
        assert forall|i: int| 0 <= i < pd.len() implies is_digit(#[trigger] pd[i]) by {
            if i < k {
                assert(pd[i] == zero_chars(k)[i]);
            } else {
                assert(pd[i] == ds[i - k]);
            }
        }
        crate::digits::lemma_digits_val_zeros(k, ds);
    }
}

/// The coordinate pattern matches the canonical body wherever the body
/// stands in a string, yielding exactly its three numbers.
proof fn lemma_dms_match_canonical(s: Seq<char>, i: int, t: (int, int, int), w: nat)
    requires
        0 <= i,
        t.0 >= 0 && t.1 >= 0 && t.2 >= 0,
        i + dms_body(t, w).len() <= s.len(),
        forall|k: int|
            0 <= k < dms_body(t, w).len() ==> s[i + k] == #[trigger] dms_body(t, w)[k],
    ensures
        dms_match(s, i) == Option::Some((t, i + dms_body(t, w).len())),
{
    lemma_padded(t.0, w);
    lemma_padded(t.1, 2);
    lemma_padded(t.2, 2);
    let p1s = padded(t.0, w);
    let p2s = padded(t.1, 2);
    let p3s = padded(t.2, 2);
    let body = dms_body(t, w);
    let l1 = p1s.len() as int;
    let l2 = p2s.len() as int;
    let l3 = p3s.len() as int;
    assert(body.len() == l1 + 1 + l2 + 1 + l3 + 1);
    assert(forall|k: int| 0 <= k < l1 ==> body[k] == #[trigger] p1s[k]);
    assert(body[l1] == '°');
    assert(forall|k: int| 0 <= k < l2 ==> body[l1 + 1 + k] == #[trigger] p2s[k]);
    assert(body[l1 + 1 + l2] == '′');
    assert(forall|k: int| 0 <= k < l3 ==> body[l1 + 1 + l2 + 1 + k] == #[trigger] p3s[k]);
    assert(body[l1 + 1 + l2 + 1 + l3] == '″');
    let sk = s.skip(i);
    assert forall|k: int| 0 <= k < l1 implies is_digit(#[trigger] sk[k]) by {
        assert(sk[k] == s[i + k]);
        assert(s[i + k] == body[k]);
        assert(body[k] == p1s[k]);
    }
    assert(sk[l1] == s[i + l1] && s[i + l1] == body[l1]);
    assert(!is_digit('°'));
    crate::digits::lemma_digits_prefix_unique(sk, l1);
    assert(s.subrange(i, i + l1) =~= p1s);
    let q1 = i + l1;
    let sk2 = s.skip(q1 + 1);
    assert forall|k: int| 0 <= k < l2 implies is_digit(#[trigger] sk2[k]) by {
        assert(sk2[k] == s[q1 + 1 + k]);
        assert(s[i + (l1 + 1 + k)] == body[l1 + 1 + k]);
    }
    assert(sk2[l2] == s[q1 + 1 + l2]);
    assert(s[i + (l1 + 1 + l2)] == body[l1 + 1 + l2]);
    assert(!is_digit('′'));
    crate::digits::lemma_digits_prefix_unique(sk2, l2);
    assert(s.subrange(q1 + 1, q1 + 1 + l2) =~= p2s);
    let q2 = q1 + 1 + l2;
    let sk3 = s.skip(q2 + 1);
    assert forall|k: int| 0 <= k < l3 implies is_digit(#[trigger] sk3[k]) by {
        assert(sk3[k] == s[q2 + 1 + k]);
        assert(s[i + (l1 + 1 + l2 + 1 + k)] == body[l1 + 1 + l2 + 1 + k]);
    }
    assert(sk3[l3] == s[q2 + 1 + l3]);
    assert(s[i + (l1 + 1 + l2 + 1 + l3)] == body[l1 + 1 + l2 + 1 + l3]);
    assert(!is_digit('″'));
    crate::digits::lemma_digits_prefix_unique(sk3, l3);
    assert(s.subrange(q2 + 1, q2 + 1 + l3) =~= p3s);
    assert(s[q2] == '′' || s[q2] == '\'');
    assert(s[q2 + 1 + l3] == '″' || s[q2 + 1 + l3] == '"');
    assert(dms_match(s, i) == Option::Some((t, i + body.len())));
}

/// The printed form of a pair matches itself at position zero: the
/// leftmost match of the canonical text is the whole text, and it reads
/// back the printed components.
proof fn lemma_latlng_canonical(ll: LatLng)
    requires
        latlng_wf(ll),
    ensures
        latlng_find(fmt_latlng(ll), 0) == Option::Some(
            (
                dms_of(abs_int(ll.lat as int)),
                ll.lat < 0,
                dms_of(abs_int(ll.lng as int)),
                ll.lng < 0,
            ),
        ),
{
    let t1 = dms_of(abs_int(ll.lat as int));
    let t2 = dms_of(abs_int(ll.lng as int));
    lemma_dms_of_bounds(abs_int(ll.lat as int));
    lemma_dms_of_bounds(abs_int(ll.lng as int));
    let b1 = dms_body(t1, 2);
    let b2 = dms_body(t2, 3);
    let h1: char = if ll.lat < 0 {
        'S'
    } else {
        'N'
    };
    let h2: char = if ll.lng < 0 {
        'W'
    } else {
        'E'
    };
    let s = fmt_latlng(ll);
    assert(s =~= b1 + seq![h1] + seq![' '] + (b2 + seq![h2]));
    assert(s.len() == b1.len() + 2 + b2.len() + 1);
    assert forall|k: int| 0 <= k < b1.len() implies s[0 + k] == #[trigger] b1[k] by {}
    lemma_dms_match_canonical(s, 0, t1, 2);
    let j = b1.len() as int;
    assert(s[j] == h1);
    assert(s[j + 1] == ' ');
    assert forall|k: int| 0 <= k < b2.len() implies s[(j + 2) + k] == #[trigger] b2[k] by {}
    lemma_dms_match_canonical(s, j + 2, t2, 3);
    let k2 = j + 2 + b2.len() as int;
    assert(s[k2] == h2);
    assert((s[j] == 'S' || s[j] == 's') == (ll.lat < 0));
    assert((s[k2] == 'W' || s[k2] == 'w') == (ll.lng < 0));
    assert(latlng_match(s, 0) == Option::Some((t1, ll.lat < 0, t2, ll.lng < 0)));
}

/// Reading back printed degrees, minutes and seconds gives the same
/// three numbers: the nearest micro-degrees of in-range components
/// render as those components again.
pub proof fn lemma_dms_value_round_trip(d: int, m: int, s: int)
    requires
        0 <= d,
        0 <= m <= 59,
        0 <= s <= 59,
    ensures
        dms_to_micro(d, m, s) >= 0,
        dms_of(dms_to_micro(d, m, s)) == (d, m, s),
{
    let k = 60 * m + s;
    let x = k * 5000 + 9;
    let w = x / 18;
    let r0 = x % 18;
    lemma_fundamental_div_mod(x, 18);
    assert(x == 18 * w + r0);
    assert(0 <= r0 < 18);
    assert(0 <= k <= 3599);
    assert(9 <= x <= 3599 * 5000 + 9);
    assert(0 <= w <= 999_722) by {
        if w > 999_722 {
            assert(18 * w >= 18 * 999_723);
        }
        if w < 0 {
            assert(18 * w <= -18);
        }
    }
    let mu = dms_to_micro(d, m, s);
    assert(mu == d * 1_000_000 + w);
    assert(mu >= 0) by (nonlinear_arith)
        requires
            d >= 0,
            w >= 0,
            mu == d * 1_000_000 + w,
    ;
    lemma_fundamental_div_mod_converse(mu, 1_000_000, d, w);
    assert(mu / 1_000_000 == d);
    assert(mu % 1_000_000 == w);
    // seconds total: (9w + 1250) / 2500 == k
    let r1 = 9 * w + 1250 - 2500 * k;
    assert(2 * r1 == 2509 - r0) by {
        assert(2 * (9 * w) == 18 * w);
    }
    assert(1246 <= r1 <= 1254);
    lemma_fundamental_div_mod_converse(9 * w + 1250, 2500, k, r1);
    assert((9 * w + 1250) / 2500 == k);
    assert(w * 9 == 9 * w) by (nonlinear_arith);
    assert((w * 9 + 1250) / 2500 == k);
    // minutes: (3w)/50000 is m, or m - 1 when the seconds are zero
    let mp = (3 * w) / 50_000;
    let r2 = (3 * w) % 50_000;
    lemma_fundamental_div_mod(3 * w, 50_000);
    assert(3 * w == 50_000 * mp + r2);
    assert(0 <= r2 < 50_000);
    assert(6 * (3 * w) == 18 * w);
    assert(300_000 * mp + 6 * r2 == 300_000 * m + 5000 * s + 9 - r0);
    if s >= 1 {
        assert(mp == m) by {
            assert(300_000 * (m - mp) == 6 * r2 - 5000 * s - 9 + r0);
            assert(-300_000 < 6 * r2 - 5000 * s - 9 + r0 < 300_000);
            if m - mp >= 1 {
                assert(300_000 * (m - mp) >= 300_000);
            }
            if m - mp <= -1 {
                assert(300_000 * (m - mp) <= -300_000);
            }
        }
        assert(w * 3 == 3 * w) by (nonlinear_arith);
        assert(dms_raw(mu) == (d, m, k - 60 * m));
        assert(k - 60 * m == s);
        assert(dms_of(mu) == (d, m, s));
    } else {
        assert(mp == m || mp == m - 1) by {
            assert(300_000 * (m - mp) == 6 * r2 - 9 + r0);
            assert(-9 <= 6 * r2 - 9 + r0 < 300_009);
            if m - mp >= 2 {
                assert(300_000 * (m - mp) >= 600_000);
            }
            if m - mp <= -1 {
                assert(300_000 * (m - mp) <= -300_000);
            }
        }
        assert(w * 3 == 3 * w) by (nonlinear_arith);
        if mp == m {
            assert(dms_raw(mu) == (d, m, 0int));
            assert(dms_of(mu) == (d, m, 0int));
        } else {
            assert(dms_raw(mu) == (d, m - 1, 60int));
            assert(dms_of(mu) == (d, m, 0int));
        }
    }
}

/// Round trip: printing a pair and parsing the text back yields a pair
/// that prints identically. The one family of inputs left out: a
/// negative coordinate so small that its magnitude rounds to zero
/// degrees, zero minutes, zero seconds, whose reparse prints the
/// positive hemisphere.
pub proof fn lemma_dms_round_trip(ll: LatLng)
    requires
        latlng_wf(ll),
        ll.lat < 0 ==> dms_to_micro(
            dms_of(abs_int(ll.lat as int)).0,
            dms_of(abs_int(ll.lat as int)).1,
            dms_of(abs_int(ll.lat as int)).2,
        ) > 0,
        ll.lng < 0 ==> dms_to_micro(
            dms_of(abs_int(ll.lng as int)).0,
            dms_of(abs_int(ll.lng as int)).1,
            dms_of(abs_int(ll.lng as int)).2,
        ) > 0,
    ensures
        ({
            let found = latlng_find(fmt_latlng(ll), 0);
            &&& found is Some
            &&& {
                let (t1, south, t2, west) = found->0;
                let ll2 = LatLng {
                    lat: match_value(t1, south) as i64,
                    lng: match_value(t2, west) as i64,
                };
                &&& latlng_wf(ll2)
                &&& fmt_latlng(ll2) == fmt_latlng(ll)
            }
        }),
{
    lemma_latlng_canonical(ll);
    let t1 = dms_of(abs_int(ll.lat as int));
    let t2 = dms_of(abs_int(ll.lng as int));
    lemma_dms_of_bounds(abs_int(ll.lat as int));
    lemma_dms_of_bounds(abs_int(ll.lng as int));
    lemma_dms_value_round_trip(t1.0, t1.1, t1.2);
    lemma_dms_value_round_trip(t2.0, t2.1, t2.2);
    let mu1 = dms_to_micro(t1.0, t1.1, t1.2);
    let mu2 = dms_to_micro(t2.0, t2.1, t2.2);
    lemma_dms_to_micro_bound(abs_int(ll.lat as int));
    lemma_dms_to_micro_bound(abs_int(ll.lng as int));
    let v1 = match_value(t1, ll.lat < 0);
    let v2 = match_value(t2, ll.lng < 0);
    assert(abs_int(v1) == mu1 && abs_int(v2) == mu2);
    assert((v1 < 0) == (ll.lat < 0)) by {
        if ll.lat < 0 {
            assert(mu1 > 0);
        }
    }
    assert((v2 < 0) == (ll.lng < 0)) by {
        if ll.lng < 0 {
            assert(mu2 > 0);
        }
    }
    let ll2 = LatLng { lat: v1 as i64, lng: v2 as i64 };
    assert(dms_of(abs_int(ll2.lat as int)) == t1);
    assert(dms_of(abs_int(ll2.lng as int)) == t2);
    assert(fmt_dms(ll2.lat as int, 2, 'N', 'S') == fmt_dms(ll.lat as int, 2, 'N', 'S'));
    assert(fmt_dms(ll2.lng as int, 3, 'E', 'W') == fmt_dms(ll.lng as int, 3, 'E', 'W'));
    assert(fmt_latlng(ll2) == fmt_latlng(ll));
}

/// The reparsed magnitude never exceeds the printed one by more than a
/// rounding step, so it stays within the parseable cap.
proof fn lemma_dms_to_micro_bound(a: int)
    requires
        0 <= a <= MAX_MICROS,
    ensures
        ({
            let t = dms_of(a);
            0 <= dms_to_micro(t.0, t.1, t.2) <= MAX_MICROS
        }),
{
    lemma_dms_of_bounds(a);
    let t = dms_of(a);
    lemma_dms_value_round_trip(t.0, t.1, t.2);
    let k = 60 * t.1 + t.2;
    let x = k * 5000 + 9;
    lemma_fundamental_div_mod(x, 18);
    assert(0 <= k <= 3599);
    assert(x / 18 <= 999_722) by {
        if x / 18 > 999_722 {
            assert(18 * (x / 18) >= 18 * 999_723);
        }
    }
    assert(x / 18 >= 0) by {
        if x / 18 < 0 {
            assert(18 * (x / 18) <= -18);
        }
    }
    assert(t.0 <= 1_000_000_000) by {
        if a == MAX_MICROS {
            lemma_fundamental_div_mod_converse(a, 1_000_000, 1_000_000_000, 0);
            assert(a / 1_000_000 == 1_000_000_000 && a % 1_000_000 == 0);
            assert(dms_raw(a) == (1_000_000_000int, 0int, 0int));
            assert(t == (1_000_000_000int, 0int, 0int));
        } else {
            assert(a / 1_000_000 <= 999_999_999) by {
                if a / 1_000_000 > 999_999_999 {
                    assert(1_000_000 * (a / 1_000_000) >= 1_000_000 * 1_000_000_000);
                    lemma_fundamental_div_mod(a, 1_000_000);
                    assert(a % 1_000_000 >= 0);
                }
            }
            assert(t.0 <= a / 1_000_000 + 1);
        }
    }
    assert(dms_to_micro(t.0, t.1, t.2) == t.0 * 1_000_000 + x / 18);
    assert(t.0 * 1_000_000 <= 1_000_000_000 * 1_000_000) by (nonlinear_arith)
        requires
            t.0 <= 1_000_000_000,
    ;
    assert(t.0 * 1_000_000 >= 0) by (nonlinear_arith)
        requires
            t.0 >= 0,
    ;
}

} // verus!
