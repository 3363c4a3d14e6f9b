//! The render pipeline: from a dataset, a configuration and an opened
//! theme store to a fully determined render plan — crop offsets, scale,
//! color pair, transformed paths, line width and location label. Every
//! drawn value is a pure function of the seed, so a render is
//! reproducible bit for bit.

use vstd::prelude::*;
use crate::color::{spec_luminance, Color};
use crate::error::Error;
use crate::geo::{fmt_latlng, LatLng};
use crate::num::{abs_int, MAX_MICROS};
use crate::path::{crop_scale_coord, fits_i64, path_wf, spec_cmd_point, trunc_div_micros, Path};
use crate::range::{range_wf, Range};
use crate::rng::{rng_wf, stream, uniform_in, Rng};
use crate::seed::Seed;
use crate::size::{size_wf, Size};
use crate::themes::{color_at, themes_wf, ThemeRef, Themes};

verus! {

/// The dataset a render consumes: the overall canvas size, the
/// geographic rectangle it covers, and the contour paths, with
/// coordinates normalized to the canvas origin.
#[derive(Debug)]
pub struct Data {
    pub size: Size,
    pub region: crate::geo::Rect,
    pub paths: Vec<Path>,
}

/// A well-formed dataset: its size, region and every path stay within
/// the parseable magnitudes.
pub open spec fn data_wf(d: Data) -> bool {
    &&& size_wf(d.size)
    &&& crate::geo::georect_wf(d.region)
    &&& forall|i: int| 0 <= i < d.paths@.len() ==> path_wf((#[trigger] d.paths@[i]).cmds@)
}

/// One render's configuration: the seed, the output size, the scale and
/// line-width ranges, the theme reference, and whether to hide the
/// location label.
#[derive(Debug)]
pub struct Config {
    pub seed: Seed,
    pub size: Size,
    pub scale_range: Range,
    pub line_width_range: Range,
    pub theme: ThemeRef,
    pub hide_location: bool,
}

/// A well-formed configuration: size and ranges within the parseable
/// magnitudes.
pub open spec fn config_wf(c: Config) -> bool {
    &&& size_wf(c.size)
    &&& range_wf(c.scale_range)
    &&& range_wf(c.line_width_range)
}

/// A configuration fits a dataset when the requested canvas is no larger
/// than the dataset canvas and both ranges run forward. Anything else is
/// refused before the first draw.
pub open spec fn valid_config(d: Data, c: Config) -> bool {
    &&& c.size.w <= d.size.w
    &&& c.size.h <= d.size.h
    &&& c.scale_range.start < c.scale_range.end
    &&& c.line_width_range.start < c.line_width_range.end
}

/// The crop x-offset a seed determines: the first draw, over the spare
/// width.
pub open spec fn spec_tx(d: Data, c: Config) -> int {
    uniform_in(stream(c.seed.v, 0), 0, d.size.w - c.size.w)
}

/// The crop y-offset a seed determines: the second draw, over the spare
/// height.
pub open spec fn spec_ty(d: Data, c: Config) -> int {
    uniform_in(stream(c.seed.v, 1), 0, d.size.h - c.size.h)
}

/// The scale a seed determines: the third draw, over the scale range.
pub open spec fn spec_scale(c: Config) -> int {
    uniform_in(stream(c.seed.v, 2), c.scale_range.start as int, c.scale_range.end as int)
}

/// The theme record a seed and a store determine: the pinned index if the
/// reference pins one (no draw), else the fourth draw reduced to the
/// record count.
pub open spec fn spec_theme_index(c: Config, t: Themes) -> int {
    match c.theme.idx {
        Option::Some(i) => i as int,
        Option::None => (stream(c.seed.v, 3) % ((t.data@.len() / 20) as u64)) as int,
    }
}

/// Whether resolving the theme reference fails: a pinned index out of
/// range, or a draw over an empty store.
pub open spec fn theme_fails(c: Config, t: Themes) -> bool {
    match c.theme.idx {
        Option::Some(i) => i >= t.data@.len() / 20,
        Option::None => t.data@.len() / 20 == 0,
    }
}

/// The stream position of the coin flip: after the crop, scale and (if
/// any) theme draws.
pub open spec fn coin_position(c: Config) -> nat {
    match c.theme.idx {
        Option::Some(_) => 3,
        Option::None => 4,
    }
}

/// The coin a seed determines: background and foreground keep or swap
/// the luminance extremes.
pub open spec fn spec_coin(c: Config) -> bool {
    stream(c.seed.v, coin_position(c)) & 1 == 1
}

/// The five colors of a store's record.
pub open spec fn theme_colors(data: Seq<u8>, idx: int) -> Seq<Color> {
    Seq::new(5, |i: int| color_at(data, idx, i))
}

/// The first index of minimal luminance among the first `n` colors
/// (ties resolve to the lowest index).
pub open spec fn min_lum_ix(cs: Seq<Color>, n: int) -> int
    decreases n,
{
    if n <= 1 {
        0
    } else {
        let p = min_lum_ix(cs, n - 1);
        if spec_luminance(cs[n - 1]) < spec_luminance(cs[p]) {
            n - 1
        } else {
            p
        }
    }
}

/// The first index of maximal luminance among the first `n` colors
/// (ties resolve to the lowest index).
pub open spec fn max_lum_ix(cs: Seq<Color>, n: int) -> int
    decreases n,
{
    if n <= 1 {
        0
    } else {
        let p = max_lum_ix(cs, n - 1);
        if spec_luminance(cs[n - 1]) > spec_luminance(cs[p]) {
            n - 1
        } else {
            p
        }
    }
}

/// The chosen pair for a palette and a coin: darkest and brightest color,
/// the coin deciding which is the background.
pub open spec fn spec_pair(cs: Seq<Color>, coin: bool) -> (Color, Color) {
    let mn = cs[min_lum_ix(cs, cs.len() as int)];
    let mx = cs[max_lum_ix(cs, cs.len() as int)];
    if coin {
        (mn, mx)
    } else {
        (mx, mn)
    }
}

/// What the minimal-luminance index means: it attains the minimum, and
/// nothing before it does.
pub proof fn lemma_min_lum_ix(cs: Seq<Color>, n: int)
    requires
        1 <= n <= cs.len(),
    ensures
        0 <= min_lum_ix(cs, n) < n,
        forall|j: int|
            0 <= j < n ==> spec_luminance(#[trigger] cs[j]) >= spec_luminance(
                cs[min_lum_ix(cs, n)],
            ),
        forall|j: int|
            0 <= j < min_lum_ix(cs, n) ==> spec_luminance(#[trigger] cs[j]) > spec_luminance(
                cs[min_lum_ix(cs, n)],
            ),
    decreases n,
{
    if n > 1 {
        lemma_min_lum_ix(cs, n - 1);
    }
}

/// What the maximal-luminance index means: it attains the maximum, and
/// nothing before it does.
pub proof fn lemma_max_lum_ix(cs: Seq<Color>, n: int)
    requires
        1 <= n <= cs.len(),
    ensures
        0 <= max_lum_ix(cs, n) < n,
        forall|j: int|
            0 <= j < n ==> spec_luminance(#[trigger] cs[j]) <= spec_luminance(
                cs[max_lum_ix(cs, n)],
            ),
        forall|j: int|
            0 <= j < max_lum_ix(cs, n) ==> spec_luminance(#[trigger] cs[j]) < spec_luminance(
                cs[max_lum_ix(cs, n)],
            ),
    decreases n,
{
    if n > 1 {
        lemma_max_lum_ix(cs, n - 1);
    }
}

/// Truncating division of `a` by `b`, as machine division computes it.
pub open spec fn div_trunc(a: int, b: int) -> int {
    let q = abs_int(a) / abs_int(b);
    if (a < 0) != (b < 0) {
        -q
    } else {
        q
    }
}

/// The exact (undivided) linear interpolation: `start` weighted by the
/// remainder of `t` to one unit, plus `end` weighted by `t`. The result
/// carries an extra factor of one million.
pub open spec fn lerp_num(s: int, e: int, t: int) -> int {
    s * (1_000_000 - t) + e * t
}

/// The interpolation brought back to micros, rounding toward zero.
pub open spec fn lerp_spec(s: int, e: int, t: int) -> int {
    trunc_div_micros(lerp_num(s, e, t))
}

/// The interpolation parameter recovered from an exact interpolation
/// value (one at the extra-factor scale).
pub open spec fn inv_lerp_num(s: int, e: int, num: int) -> int {
    (num - s * 1_000_000) / (e - s)
}

/// The parameter recovered from a micros value, rounding toward zero.
pub open spec fn inv_lerp_spec(s: int, e: int, v: int) -> int {
    div_trunc((v - s) * 1_000_000, e - s)
}

/// Inverting an exact linear interpolation recovers the parameter
/// exactly, for any parameter and any non-degenerate range.
pub proof fn lemma_inv_lerp_lerp(s: int, e: int, t: int)
    requires
        s != e,
    ensures
        inv_lerp_num(s, e, lerp_num(s, e, t)) == t,
{
    assert(lerp_num(s, e, t) - s * 1_000_000 == (e - s) * t) by (nonlinear_arith);
    assert(((e - s) * t) / (e - s) == t) by (nonlinear_arith)
        requires
            e - s != 0,
    ;
}

/// Truncating division leaves a remainder smaller than the divisor.
proof fn lemma_div_trunc_close(a: int, b: int)
    requires
        b != 0,
    ensures
        abs_int(b * div_trunc(a, b) - a) < abs_int(b),
{
    let q = abs_int(a) / abs_int(b);
    vstd::arithmetic::div_mod::lemma_fundamental_div_mod(abs_int(a), abs_int(b));
    let rr = abs_int(a) % abs_int(b);
    assert(abs_int(a) == abs_int(b) * q + rr);
    assert(0 <= rr < abs_int(b));
    if a >= 0 {
        if b >= 0 {
            assert(b * div_trunc(a, b) == abs_int(b) * q);
        } else {
            assert(b * div_trunc(a, b) == b * (-q) == (-b) * q == abs_int(b) * q)
                by (nonlinear_arith)
                requires
                    b < 0,
                    div_trunc(a, b) == -q,
                    abs_int(b) == -b,
            ;
        }
        assert(b * div_trunc(a, b) - a == -rr);
    } else {
        if b >= 0 {
            assert(b * div_trunc(a, b) == b * (-q) == -(b * q) == -(abs_int(b) * q))
                by (nonlinear_arith)
                requires
                    b >= 0,
                    div_trunc(a, b) == -q,
                    abs_int(b) == b,
            ;
        } else {
            assert(b * div_trunc(a, b) == b * q == -((-b) * q) == -(abs_int(b) * q))
                by (nonlinear_arith)
                requires
                    b < 0,
                    div_trunc(a, b) == q,
                    abs_int(b) == -b,
            ;
        }
        assert(b * div_trunc(a, b) - a == -(abs_int(b) * q) + abs_int(a) == rr);
    }
}

/// The same, for the fixed divisor of one million.
proof fn lemma_trunc_micros_close(n: int)
    ensures
        abs_int(1_000_000 * trunc_div_micros(n) - n) < 1_000_000,
{
    if n >= 0 {
        vstd::arithmetic::div_mod::lemma_fundamental_div_mod(n, 1_000_000);
    } else {
        vstd::arithmetic::div_mod::lemma_fundamental_div_mod(-n, 1_000_000);
        assert(1_000_000 * trunc_div_micros(n) - n == -(1_000_000 * ((-n) / 1_000_000) - (-n)));
    }
}

/// Tolerance of the executable round trip: inverting the truncating
/// interpolation recovers the parameter to within one micro plus the
/// rounding the span allows (exactly one unit of the span's reciprocal).
pub proof fn lemma_exec_inv_lerp_lerp(s: int, e: int, t: int)
    requires
        s != e,
    ensures
        abs_int(inv_lerp_spec(s, e, lerp_spec(s, e, t)) - t) * abs_int(e - s) < abs_int(e - s)
            + 1_000_000,
{
    let d = e - s;
    let n = lerp_num(s, e, t);
    let v = trunc_div_micros(n);
    lemma_trunc_micros_close(n);
    let rho = 1_000_000 * v - n;
    let m = (v - s) * 1_000_000;
    let inv = div_trunc(m, d);
    lemma_div_trunc_close(m, d);
    let r2 = d * inv - m;
    assert(m == n + rho - s * 1_000_000) by (nonlinear_arith)
        requires
            m == (v - s) * 1_000_000,
            rho == 1_000_000 * v - n,
    ;
    assert(n - s * 1_000_000 == d * t) by (nonlinear_arith)
        requires
            n == s * (1_000_000 - t) + e * t,
            d == e - s,
    ;
    assert(d * (inv - t) == r2 + rho) by (nonlinear_arith)
        requires
            r2 == d * inv - m,
            m == d * t + rho,
    ;
    assert(abs_int(d * (inv - t)) == abs_int(d) * abs_int(inv - t)) by (nonlinear_arith);
    assert(abs_int(r2 + rho) <= abs_int(r2) + abs_int(rho));
    assert(abs_int(inv - t) * abs_int(d) < abs_int(d) + 1_000_000) by (nonlinear_arith)
        requires
            abs_int(d) * abs_int(inv - t) < abs_int(d) + 1_000_000,
    ;
}

/// Within the unit interval, an interpolation between capped bounds
/// stays within the cap (it is a convex mix of the two).
pub proof fn lemma_lerp_spec_bounded(s: int, e: int, t: int)
    requires
        abs_int(s) <= MAX_MICROS,
        abs_int(e) <= MAX_MICROS,
        0 <= t <= 1_000_000,
    ensures
        abs_int(lerp_spec(s, e, t)) <= MAX_MICROS,
{
    let n = lerp_num(s, e, t);
    assert(-1_000_000 * MAX_MICROS <= n <= 1_000_000 * MAX_MICROS) by (nonlinear_arith)
        requires
            n == s * (1_000_000 - t) + e * t,
            abs_int(s) <= MAX_MICROS,
            abs_int(e) <= MAX_MICROS,
            0 <= t <= 1_000_000,
    ;
    if n >= 0 {
        vstd::arithmetic::div_mod::lemma_fundamental_div_mod(n, 1_000_000);
        assert(n / 1_000_000 <= MAX_MICROS) by {
            if n / 1_000_000 > MAX_MICROS {
                assert(1_000_000 * (n / 1_000_000) >= 1_000_000 * (MAX_MICROS + 1));
            }
        }
        assert(n / 1_000_000 >= 0) by {
            if n / 1_000_000 < 0 {
                assert(1_000_000 * (n / 1_000_000) <= -1_000_000);
            }
        }
    } else {
        vstd::arithmetic::div_mod::lemma_fundamental_div_mod(-n, 1_000_000);
        assert((-n) / 1_000_000 <= MAX_MICROS) by {
            if (-n) / 1_000_000 > MAX_MICROS {
                assert(1_000_000 * ((-n) / 1_000_000) >= 1_000_000 * (MAX_MICROS + 1));
            }
        }
        assert((-n) / 1_000_000 >= 0) by {
            if (-n) / 1_000_000 < 0 {
                assert(1_000_000 * ((-n) / 1_000_000) <= -1_000_000);
            }
        }
    }
}

/// For a value between the bounds of a non-degenerate range, the
/// recovered parameter lies within the unit interval.
pub proof fn lemma_inv_lerp_spec_in_range(s: int, e: int, v: int)
    requires
        s != e,
        (s <= v <= e) || (e <= v <= s),
    ensures
        0 <= inv_lerp_spec(s, e, v) <= 1_000_000,
{
    let a = (v - s) * 1_000_000;
    let b = e - s;
    assert(abs_int(a) <= abs_int(b) * 1_000_000) by (nonlinear_arith)
        requires
            a == (v - s) * 1_000_000,
            b == e - s,
            (s <= v <= e) || (e <= v <= s),
    ;
    assert((a < 0) == (b < 0) || a == 0) by (nonlinear_arith)
        requires
            a == (v - s) * 1_000_000,
            b == e - s,
            (s <= v <= e) || (e <= v <= s),
    ;
    let q = abs_int(a) / abs_int(b);
    assert(0 <= q <= 1_000_000) by (nonlinear_arith)
        requires
            q == abs_int(a) / abs_int(b),
            abs_int(a) >= 0,
            abs_int(b) > 0,
            abs_int(a) <= abs_int(b) * 1_000_000,
    ;
    if a == 0 {
        assert(abs_int(a) == 0);
        assert(q == 0) by (nonlinear_arith)
            requires
                q == 0int / abs_int(b),
                abs_int(b) > 0,
        ;
    }
}

/// Linear interpolation over micros: `start` at zero, `end` at one
/// million, any parameter beyond interpolating outward. The one machine
/// limit: the exact result must be representable (it always is for a
/// parameter within the unit interval, by [`lemma_lerp_spec_bounded`]).
pub fn lerp(r: &Range, t: i64) -> (v: i64)
    requires
        range_wf(*r),
        abs_int(t as int) <= MAX_MICROS,
        fits_i64(lerp_spec(r.start as int, r.end as int, t as int)),
    ensures
        v == lerp_spec(r.start as int, r.end as int, t as int),
        0 <= t <= 1_000_000 ==> abs_int(v as int) <= MAX_MICROS,
{
    let s = r.start as i128;
    let e = r.end as i128;
    let tt = t as i128;
    proof {
        assert(-2_000_000_000_000_000_000_000_000_000_000 <= s * (1_000_000 - tt)
            <= 2_000_000_000_000_000_000_000_000_000_000
            && -1_000_000_000_000_000_000_000_000_000_000 <= e * tt
            <= 1_000_000_000_000_000_000_000_000_000_000) by (nonlinear_arith)
            requires
                -1_000_000_000_000_000 <= s <= 1_000_000_000_000_000,
                -1_000_000_000_000_000 <= e <= 1_000_000_000_000_000,
                -1_000_000_000_000_000 <= tt <= 1_000_000_000_000_000,
        ;
    }
    let num = s * (1_000_000 - tt) + e * tt;
    proof {
        if 0 <= t <= 1_000_000 {
            lemma_lerp_spec_bounded(r.start as int, r.end as int, t as int);
        }
    }
    let q: i128 = if num >= 0 {
        num / 1_000_000
    } else {
        -((-num) / 1_000_000)
    };
    proof {
        assert(num >= 0 ==> 0 <= num / 1_000_000 <= num) by (nonlinear_arith);
        assert(num < 0 ==> 0 <= (-num) / 1_000_000 <= -num) by (nonlinear_arith);
        assert(q == trunc_div_micros(num as int));
        assert(q == lerp_spec(r.start as int, r.end as int, t as int));
    }
    q as i64
}

/// The position of `v` within `[start, end)`, in micros of the range's
/// whole span: the inverse of [`lerp`] up to rounding, defined for any
/// value of a non-degenerate range. The one machine limit: the exact
/// result must be representable (it always is for a value between the
/// bounds, by [`lemma_inv_lerp_spec_in_range`]).
pub fn inv_lerp(r: &Range, v: i64) -> (t: i64)
    requires
        range_wf(*r),
        r.start != r.end,
        abs_int(v as int) <= MAX_MICROS,
        fits_i64(inv_lerp_spec(r.start as int, r.end as int, v as int)),
    ensures
        t == inv_lerp_spec(r.start as int, r.end as int, v as int),
        ((r.start <= v <= r.end) || (r.end <= v <= r.start)) ==> 0 <= t <= 1_000_000,
{
    let num = ((v as i128) - (r.start as i128)) * 1_000_000;
    let den = (r.end as i128) - (r.start as i128);
    let (na, abs_n): (bool, i128) = if num < 0 {
        (true, -num)
    } else {
        (false, num)
    };
    let (da, abs_d): (bool, i128) = if den < 0 {
        (true, -den)
    } else {
        (false, den)
    };
    let q = abs_n / abs_d;
    proof {
        assert(abs_n == abs_int(num as int) && abs_d == abs_int(den as int));
        assert(q == abs_int(num as int) / abs_int(den as int));
        assert(abs_n / abs_d >= 0) by (nonlinear_arith)
            requires
                abs_n >= 0,
                abs_d > 0,
        ;
        if (r.start <= v <= r.end) || (r.end <= v <= r.start) {
            lemma_inv_lerp_spec_in_range(r.start as int, r.end as int, v as int);
        }
    }
    let t: i128 = if na != da {
        -q
    } else {
        q
    };
    proof {
        assert(t == inv_lerp_spec(r.start as int, r.end as int, v as int));
    }
    t as i64
}

/// The span of a range, end minus start.
pub open spec fn e_minus_s(r: Range) -> int {
    r.end - r.start
}

/// The fraction, in micros of the whole, that `v` stands at within a
/// span of `h` (zero when the span is empty).
pub open spec fn frac_of(v: int, h: int) -> int {
    if h <= 0 {
        0
    } else {
        (v * 1_000_000) / h
    }
}

/// The fraction as executable code.
fn frac_exec(v: i64, h: i64) -> (t: i64)
    requires
        0 <= v <= h,
        h <= MAX_MICROS,
    ensures
        t == frac_of(v as int, h as int),
        0 <= t <= 1_000_000,
{
    if h <= 0 {
        return 0;
    }
    let num = (v as i128) * 1_000_000;
    let q = num / (h as i128);
    proof {
        assert(0 <= num <= (h as i128) * 1_000_000) by (nonlinear_arith)
            requires
                num == (v as i128) * 1_000_000,
                0 <= v <= h,
        ;
        assert(0 <= q <= 1_000_000) by (nonlinear_arith)
            requires
                q == num / (h as i128),
                0 <= num <= (h as i128) * 1_000_000,
                h > 0,
        ;
    }
    q as i64
}

/// The location label's coordinates: the geographic rectangle
/// interpolated by the untransformed crop offset fractions (south to
/// north for latitude, since the crop offset grows downward).
pub open spec fn spec_location(d: Data, c: Config) -> LatLng {
    let fy = frac_of(spec_ty(d, c), d.size.h as int);
    let fx = frac_of(spec_tx(d, c), d.size.w as int);
    LatLng {
        lat: lerp_spec(d.region.se.lat as int, d.region.nw.lat as int, fy) as i64,
        lng: lerp_spec(d.region.nw.lng as int, d.region.se.lng as int, fx) as i64,
    }
}

/// The line width: the scale's position within its range, mapped onto
/// the line-width range.
pub open spec fn spec_line_width(c: Config) -> int {
    lerp_spec(
        c.line_width_range.start as int,
        c.line_width_range.end as int,
        inv_lerp_spec(c.scale_range.start as int, c.scale_range.end as int, spec_scale(c)),
    )
}

/// Whether some path coordinate overflows under the determined crop and
/// scale.
pub open spec fn paths_overflow(d: Data, c: Config) -> bool {
    exists|p: int, i: int|
        0 <= p < d.paths@.len() && 0 <= i < d.paths@[p].cmds@.len() && {
            let pt = spec_cmd_point(#[trigger] d.paths@[p].cmds@[i]);
            !fits_i64(crop_scale_coord(pt.x as int, spec_tx(d, c), spec_scale(c))) || !fits_i64(
                crop_scale_coord(pt.y as int, spec_ty(d, c), spec_scale(c)),
            )
        }
}

/// A finished render plan: everything the drawing surface needs.
#[derive(Debug)]
pub struct Plan {
    /// Crop x-offset in micros.
    pub tx: i64,
    /// Crop y-offset in micros.
    pub ty: i64,
    /// Scale factor in micros.
    pub scale: i64,
    /// The resolved theme record.
    pub theme_index: usize,
    /// Fill for the canvas and the label box.
    pub background: Color,
    /// Stroke and text color.
    pub foreground: Color,
    /// Stroke width in micros.
    pub line_width: i64,
    /// The interpolated location.
    pub location: LatLng,
    /// The location label's text, unless hidden.
    pub label: Option<String>,
    /// The cropped and scaled paths, in dataset order.
    pub paths: Vec<Path>,
}

/// The whole render contract: how a plan (or a failure) relates to the
/// dataset, the configuration and the theme store. Every `Ok` field is a
/// pure function of those inputs.
pub open spec fn render_post(d: Data, c: Config, t: Themes, r: Result<Plan, Error>) -> bool {
    match r {
        Ok(plan) => {
            &&& valid_config(d, c)
            &&& !theme_fails(c, t)
            &&& !paths_overflow(d, c)
            &&& plan.tx == spec_tx(d, c)
            &&& plan.ty == spec_ty(d, c)
            &&& plan.scale == spec_scale(c)
            &&& plan.theme_index == spec_theme_index(c, t)
            &&& (plan.background, plan.foreground) == spec_pair(
                theme_colors(t.data@, spec_theme_index(c, t)),
                spec_coin(c),
            )
            &&& plan.line_width == spec_line_width(c)
            &&& plan.location == spec_location(d, c)
            &&& plan.label == (if c.hide_location {
                Option::<String>::None
            } else {
                Option::Some(plan.label->0)
            })
            &&& (c.hide_location || plan.label->0@ == fmt_latlng(spec_location(d, c)))
            &&& plan.paths@.len() == d.paths@.len()
            &&& forall|p: int, i: int|
                0 <= p < d.paths@.len() && 0 <= i < d.paths@[p].cmds@.len() ==> {
                    let oldc = d.paths@[p].cmds@[i];
                    let newc = #[trigger] plan.paths@[p].cmds@[i];
                    &&& plan.paths@[p].cmds@.len() == d.paths@[p].cmds@.len()
                    &&& (newc is MoveTo <==> oldc is MoveTo)
                    &&& spec_cmd_point(newc).x == crop_scale_coord(
                        spec_cmd_point(oldc).x as int,
                        spec_tx(d, c),
                        spec_scale(c),
                    )
                    &&& spec_cmd_point(newc).y == crop_scale_coord(
                        spec_cmd_point(oldc).y as int,
                        spec_ty(d, c),
                        spec_scale(c),
                    )
                }
        },
        Err(e) => {
            &&& e == Error::Range
            &&& (!valid_config(d, c) || theme_fails(c, t) || paths_overflow(d, c))
        },
    }
}

/// Select the background/foreground pair by luminance extremes: the
/// first-lowest and first-highest luminance colors, one coin flip
/// deciding which is which.
pub fn select_color_pair(rng: &mut Rng, colors: &Vec<Color>) -> (r: (Color, Color))
    requires
        rng_wf(*old(rng)),
        colors@.len() >= 1,
    ensures
        rng_wf(*final(rng)),
        final(rng).seed == old(rng).seed,
        final(rng).drawn@ == old(rng).drawn@ + 1,
        r == spec_pair(colors@, stream(old(rng).seed@, old(rng).drawn@) & 1 == 1),
{
    let n = colors.len();
    let mut min_ix: usize = 0;
    let mut max_ix: usize = 0;
    let mut i: usize = 1;
    while i < n
        invariant
            1 <= i <= n,
            n == colors@.len(),
            min_ix < i,
            max_ix < i,
            min_ix == min_lum_ix(colors@, i as int),
            max_ix == max_lum_ix(colors@, i as int),
        decreases n - i,
    {
        if colors[i].luminance() < colors[min_ix].luminance() {
            min_ix = i;
        }
        if colors[i].luminance() > colors[max_ix].luminance() {
            max_ix = i;
        }
        i = i + 1;
    }
    let coin = rng.next_bool();
    if coin {
        (colors[min_ix], colors[max_ix])
    } else {
        (colors[max_ix], colors[min_ix])
    }
}

/// Render: deterministically select the crop, scale, theme record and
/// color pair from the seed, transform the paths, and interpolate the
/// location label. Fails fast, with a range error, on a canvas larger
/// than the dataset, an inverted or empty range, an unresolvable theme
/// reference, or a transformed coordinate beyond the machine range.
#[verifier::rlimit(100)]
pub fn render(data: &Data, config: &Config, themes: &Themes) -> (r: Result<Plan, Error>)
    requires
        data_wf(*data),
        config_wf(*config),
        themes_wf(*themes),
    ensures
        render_post(*data, *config, *themes, r),
{
    if config.size.w > data.size.w || config.size.h > data.size.h {
        return Err(Error::Range);
    }
    if config.scale_range.start >= config.scale_range.end {
        return Err(Error::Range);
    }
    if config.line_width_range.start >= config.line_width_range.end {
        return Err(Error::Range);
    }
    let mut rng = config.seed.rng();
    proof {
        assert(range_wf(config.scale_range));
    }
    let tx = rng.next_in_range(0, data.size.w - config.size.w);
    let ty = rng.next_in_range(0, data.size.h - config.size.h);
    let scale = rng.next_in_range(config.scale_range.start, config.scale_range.end);
    let picked = match config.theme.pick(themes, &mut rng) {
        Ok(p) => p,
        Err(e) => {
            return Err(Error::Range);
        },
    };
    let theme_index = picked.0;
    let colors = picked.1;
    let pair = select_color_pair(&mut rng, &colors);
    proof {
        assert(colors@ =~= theme_colors(themes.data@, spec_theme_index(*config, *themes)));
    }
    let new_paths = match transform_paths(&data.paths, tx, ty, scale) {
        Ok(nps) => nps,
        Err(_) => {
            return Err(Error::Range);
        },
    };
    let fy = frac_exec(ty, data.size.h);
    let fx = frac_exec(tx, data.size.w);
    let lat_range = Range::new(data.region.se.lat, data.region.nw.lat);
    let lng_range = Range::new(data.region.nw.lng, data.region.se.lng);
    proof {
        lemma_lerp_spec_bounded(data.region.se.lat as int, data.region.nw.lat as int, fy as int);
        lemma_lerp_spec_bounded(data.region.nw.lng as int, data.region.se.lng as int, fx as int);
    }
    let lat = lerp(&lat_range, fy);
    let lng = lerp(&lng_range, fx);
    let location = LatLng::new(lat, lng);
    proof {
        lemma_inv_lerp_spec_in_range(
            config.scale_range.start as int,
            config.scale_range.end as int,
            scale as int,
        );
    }
    let t = inv_lerp(&config.scale_range, scale);
    proof {
        lemma_lerp_spec_bounded(
            config.line_width_range.start as int,
            config.line_width_range.end as int,
            t as int,
        );
    }
    let line_width = lerp(&config.line_width_range, t);
    let label = if config.hide_location {
        None
    } else {
        Some(location.to_dms())
    };
    proof {
        assert(valid_config(*data, *config));
        assert(!theme_fails(*config, *themes));
        assert(tx == spec_tx(*data, *config));
        assert(ty == spec_ty(*data, *config));
        assert(scale == spec_scale(*config));
        assert(theme_index == spec_theme_index(*config, *themes));
        assert((pair.0, pair.1) == spec_pair(
            theme_colors(themes.data@, spec_theme_index(*config, *themes)),
            spec_coin(*config),
        ));
        assert(line_width == spec_line_width(*config));
        assert(location == spec_location(*data, *config));
        assert forall|q: int, i: int|
            0 <= q < data.paths@.len() && 0 <= i < data.paths@[q].cmds@.len() implies {
            let pt = spec_cmd_point(#[trigger] data.paths@[q].cmds@[i]);
            fits_i64(crop_scale_coord(pt.x as int, spec_tx(*data, *config), spec_scale(*config)))
                && fits_i64(
                crop_scale_coord(pt.y as int, spec_ty(*data, *config), spec_scale(*config)),
            )
        } by {
            let newc = new_paths@[q].cmds@[i];
            assert(spec_cmd_point(newc).x == crop_scale_coord(
                spec_cmd_point(data.paths@[q].cmds@[i]).x as int,
                tx as int,
                scale as int,
            ));
            assert(spec_cmd_point(newc).y == crop_scale_coord(
                spec_cmd_point(data.paths@[q].cmds@[i]).y as int,
                ty as int,
                scale as int,
            ));
        }
        assert(!paths_overflow(*data, *config));
    }
    Ok(
        Plan {
            tx,
            ty,
            scale,
            theme_index,
            background: pair.0,
            foreground: pair.1,
            line_width,
            location,
            label,
            paths: new_paths,
        },
    )
}

/// Determinism: for a fixed dataset, configuration and theme store, any
/// two outcomes that the render contract admits agree — same success or
/// failure, and on success the same crop offsets, scale, theme record,
/// color pair and label text.
pub proof fn lemma_render_deterministic(
    d: Data,
    c: Config,
    t: Themes,
    r1: Result<Plan, Error>,
    r2: Result<Plan, Error>,
)
    requires
        render_post(d, c, t, r1),
        render_post(d, c, t, r2),
    ensures
        r1 is Ok <==> r2 is Ok,
        r1 is Ok ==> {
            let p1 = r1->Ok_0;
            let p2 = r2->Ok_0;
            &&& p1.tx == p2.tx
            &&& p1.ty == p2.ty
            &&& p1.scale == p2.scale
            &&& p1.theme_index == p2.theme_index
            &&& p1.background == p2.background
            &&& p1.foreground == p2.foreground
            &&& p1.location == p2.location
            &&& p1.line_width == p2.line_width
            &&& (p1.label is Some <==> p2.label is Some)
            &&& p1.label is Some ==> p1.label->0@ == p2.label->0@
        },
{
}

/// The boundary crop: a canvas exactly the dataset's size leaves no
/// spare width or height, so both crop offsets are forced to zero,
/// deterministically, whatever the seed draws.
pub proof fn lemma_boundary_crop(d: Data, c: Config, t: Themes, r: Result<Plan, Error>)
    requires
        render_post(d, c, t, r),
        c.size.w == d.size.w,
        c.size.h == d.size.h,
        r is Ok,
    ensures
        r->Ok_0.tx == 0,
        r->Ok_0.ty == 0,
{
}


/// Crop and scale every path, in order; a range failure reports some
/// coordinate that does not fit after the transform.
fn transform_paths(paths: &Vec<Path>, tx: i64, ty: i64, scale: i64) -> (r: Result<Vec<Path>, Error>)
    requires
        forall|i: int| 0 <= i < paths@.len() ==> path_wf((#[trigger] paths@[i]).cmds@),
        abs_int(tx as int) <= MAX_MICROS,
        abs_int(ty as int) <= MAX_MICROS,
        abs_int(scale as int) <= MAX_MICROS,
    ensures
        match r {
            Ok(nps) => {
                &&& nps@.len() == paths@.len()
                &&& forall|q: int, i: int|
                    0 <= q < paths@.len() && 0 <= i < paths@[q].cmds@.len() ==> {
                        let oldc = paths@[q].cmds@[i];
                        let newc = #[trigger] nps@[q].cmds@[i];
                        &&& nps@[q].cmds@.len() == paths@[q].cmds@.len()
                        &&& (newc is MoveTo <==> oldc is MoveTo)
                        &&& spec_cmd_point(newc).x == crop_scale_coord(
                            spec_cmd_point(oldc).x as int,
                            tx as int,
                            scale as int,
                        )
                        &&& spec_cmd_point(newc).y == crop_scale_coord(
                            spec_cmd_point(oldc).y as int,
                            ty as int,
                            scale as int,
                        )
                    }
            },
            Err(e) => {
                &&& e == Error::Range
                &&& exists|q: int, i: int|
                    0 <= q < paths@.len() && 0 <= i < paths@[q].cmds@.len() && {
                        let pt = spec_cmd_point(#[trigger] paths@[q].cmds@[i]);
                        !fits_i64(crop_scale_coord(pt.x as int, tx as int, scale as int))
                            || !fits_i64(crop_scale_coord(pt.y as int, ty as int, scale as int))
                    }
            },
        },
{
    let mut nps: Vec<Path> = Vec::new();
    let mut p: usize = 0;
    while p < paths.len()
        invariant
            forall|i: int| 0 <= i < paths@.len() ==> path_wf((#[trigger] paths@[i]).cmds@),
            abs_int(tx as int) <= MAX_MICROS,
            abs_int(ty as int) <= MAX_MICROS,
            abs_int(scale as int) <= MAX_MICROS,
            p <= paths@.len(),
            nps@.len() == p,
            forall|q: int, i: int|
                0 <= q < p && 0 <= i < paths@[q].cmds@.len() ==> {
                    let oldc = paths@[q].cmds@[i];
                    let newc = #[trigger] nps@[q].cmds@[i];
                    &&& nps@[q].cmds@.len() == paths@[q].cmds@.len()
                    &&& (newc is MoveTo <==> oldc is MoveTo)
                    &&& spec_cmd_point(newc).x == crop_scale_coord(
                        spec_cmd_point(oldc).x as int,
                        tx as int,
                        scale as int,
                    )
                    &&& spec_cmd_point(newc).y == crop_scale_coord(
                        spec_cmd_point(oldc).y as int,
                        ty as int,
                        scale as int,
                    )
                },
        decreases paths@.len() - p,
    {
        let np = match paths[p].crop_scale(tx, ty, scale) {
            Ok(np) => np,
            Err(_) => {
                return Err(Error::Range);
            },
        };
        nps.push(np);
        p = p + 1;
    }
    Ok(nps)
}


/// Where the location label goes: a background box anchored to the
/// bottom-right corner with a thirty-pixel offset and ten pixels of
/// margin around the measured text, and the text baseline inset twenty
/// pixels from the corner. All quantities are micros; the text metrics
/// come from the drawing surface that measured the label.
pub struct LabelLayout {
    pub box_x: i64,
    pub box_y: i64,
    pub box_w: i64,
    pub box_h: i64,
    pub text_x: i64,
    pub text_y: i64,
}

/// Compute the label box and baseline for a canvas and measured text.
pub fn label_layout(canvas: &Size, text_width: i64, text_height: i64, y_bearing: i64) -> (r:
    LabelLayout)
    requires
        size_wf(*canvas),
        abs_int(text_width as int) <= MAX_MICROS,
        abs_int(text_height as int) <= MAX_MICROS,
        abs_int(y_bearing as int) <= MAX_MICROS,
    ensures
        r.box_x == canvas.w - text_width - 30_000_000,
        r.box_y == canvas.h + y_bearing - 30_000_000,
        r.box_w == text_width + 20_000_000,
        r.box_h == text_height + 20_000_000,
        r.text_x == canvas.w - text_width - 20_000_000,
        r.text_y == canvas.h - 20_000_000,
{
    LabelLayout {
        box_x: canvas.w - text_width - 30_000_000,
        box_y: canvas.h + y_bearing - 30_000_000,
        box_w: text_width + 20_000_000,
        box_h: text_height + 20_000_000,
        text_x: canvas.w - text_width - 20_000_000,
        text_y: canvas.h - 20_000_000,
    }
}

} // verus!
