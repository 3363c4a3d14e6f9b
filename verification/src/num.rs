//! Fixed-point numbers: real-valued quantities carried as signed integers
//! in millionths of a unit ("micros"), with an exact decimal textual form.
//!
//! `1_500_000` micros is one and a half units and prints as `"1.5"`;
//! `"1.5"` parses back to `1_500_000`. Parsing accepts an optional sign, an
//! integer part and an optional fractional part; fractional digits beyond
//! the sixth are read but do not contribute.

use vstd::prelude::*;
use crate::digits::{
    all_digits, dec_digits, digit_val, digits_prefix_len, digits_to_u64, digits_val, fmt_u64,
    is_digit, lemma_dec_digits, lemma_dec_digits_len, lemma_digits_prefix,
    lemma_digits_prefix_unique, lemma_digits_val_bounds, lemma_digits_val_push,
    lemma_digits_val_all_zero, lemma_digits_val_zeros, pow10, scan_digits, zero_chars,
};
use crate::error::Error;

verus! {

/// How many micro-units make one unit.
pub const MICROS_PER_UNIT: i64 = 1_000_000;

/// Largest magnitude, in micros, that parsed quantities may take
/// (a billion units).
pub const MAX_MICROS: i64 = 1_000_000_000_000_000;

/// Magnitude of an integer.
pub open spec fn abs_int(v: int) -> int {
    if v < 0 {
        -v
    } else {
        v
    }
}

/// `s` left-padded with zeros to six characters.
pub open spec fn pad6(s: Seq<char>) -> Seq<char> {
    zero_chars((6 - s.len()) as nat) + s
}

/// `s` with its trailing zero characters removed.
pub open spec fn trim0(s: Seq<char>) -> Seq<char>
    decreases s.len(),
{
    if s.len() > 0 && s.last() == '0' {
        trim0(s.drop_last())
    } else {
        s
    }
}

/// The decimal rendering of `v` micros: optional minus sign, integer part,
/// and a fractional part (trailing zeros trimmed) only when nonzero.
pub open spec fn fmt_micros(v: int) -> Seq<char> {
    let a = abs_int(v);
    let sign: Seq<char> = if v < 0 {
        seq!['-']
    } else {
        Seq::empty()
    };
    let ip = dec_digits((a / 1_000_000) as nat);
    let f = a % 1_000_000;
    if f == 0 {
        sign + ip
    } else {
        sign + ip + seq!['.'] + trim0(pad6(dec_digits(f as nat)))
    }
}

/// The value, in micros, of a fractional digit string: its first six
/// digits, right-padded with zeros to six.
pub open spec fn frac_val(f: Seq<char>) -> int {
    if f.len() >= 6 {
        digits_val(f.subrange(0, 6))
    } else {
        digits_val(f + zero_chars((6 - f.len()) as nat))
    }
}

/// Parse an unsigned decimal as micros: digits, then optionally a dot and
/// fractional digits, with at least one digit in all.
pub open spec fn parse_unsigned_micros(t: Seq<char>) -> Option<int> {
    let ie = digits_prefix_len(t) as int;
    let ip = t.subrange(0, ie);
    if ie == t.len() {
        if ie == 0 {
            Option::None
        } else {
            Option::Some(digits_val(ip) * 1_000_000)
        }
    } else if t[ie] == '.' {
        let fr = t.skip(ie + 1);
        if !all_digits(fr) {
            Option::None
        } else if ie == 0 && fr.len() == 0 {
            Option::None
        } else {
            Option::Some(digits_val(ip) * 1_000_000 + frac_val(fr))
        }
    } else {
        Option::None
    }
}

/// Parse a signed decimal as micros: an optional `-` or `+`, then the
/// unsigned form.
pub open spec fn parse_micros(s: Seq<char>) -> Option<int> {
    if s.len() == 0 {
        Option::None
    } else if s[0] == '-' {
        match parse_unsigned_micros(s.skip(1)) {
            Option::Some(v) => Option::Some(-v),
            Option::None => Option::None,
        }
    } else if s[0] == '+' {
        parse_unsigned_micros(s.skip(1))
    } else {
        parse_unsigned_micros(s)
    }
}

/// What trimming trailing zeros leaves: a prefix that the removed zeros
/// rebuild, ending in a nonzero character if nonempty.
pub proof fn lemma_trim0(s: Seq<char>)
    ensures
        trim0(s).len() <= s.len(),
        s =~= trim0(s) + zero_chars((s.len() - trim0(s).len()) as nat),
        trim0(s).len() > 0 ==> trim0(s).last() != '0',
        forall|i: int| 0 <= i < trim0(s).len() ==> trim0(s)[i] == s[i],
    decreases s.len(),
{
    if s.len() > 0 && s.last() == '0' {
        lemma_trim0(s.drop_last());
        let k = (s.len() - 1 - trim0(s).len()) as nat;
        assert(s =~= s.drop_last().push('0'));
        assert(s.drop_last() =~= trim0(s) + zero_chars(k));
        assert(zero_chars((s.len() - trim0(s).len()) as nat) =~= zero_chars(k).push('0'));
        assert((trim0(s) + zero_chars(k)).push('0') =~= trim0(s) + zero_chars(k).push('0'));
        assert(s =~= trim0(s) + zero_chars((s.len() - trim0(s).len()) as nat));
    }
}

/// Appending `k` zeros multiplies a digit string's value by `10^k`.
pub proof fn lemma_digits_val_append_zeros(s: Seq<char>, k: nat)
    ensures
        digits_val(s + zero_chars(k)) == digits_val(s) * pow10(k),
    decreases k,
{
    if k == 0 {
        assert(s + zero_chars(0nat) =~= s);
        assert(pow10(0nat) == 1);
    } else {
        lemma_digits_val_append_zeros(s, (k - 1) as nat);
        assert(s + zero_chars(k) =~= (s + zero_chars((k - 1) as nat)).push('0'));
        lemma_digits_val_push(s + zero_chars((k - 1) as nat), '0');
        assert(digits_val(s + zero_chars(k)) == digits_val(s) * pow10((k - 1) as nat) * 10);
        assert(pow10(k) == 10 * pow10((k - 1) as nat));
        assert(digits_val(s) * pow10((k - 1) as nat) * 10 == digits_val(s) * (10 * pow10(
            (k - 1) as nat,
        ))) by (nonlinear_arith);
    }
}

/// The trimmed, padded rendering of a fraction reads back as that
/// fraction.
proof fn lemma_frac_round_trip(f: nat)
    requires
        0 < f < 1_000_000,
    ensures
        ({
            let ft = trim0(pad6(dec_digits(f)));
            &&& all_digits(ft)
            &&& ft.len() > 0
            &&& frac_val(ft) == f
        }),
{
    lemma_dec_digits(f);
    assert(pow10(6nat) == 1_000_000) by {
        reveal_with_fuel(pow10, 7);
    }
    lemma_dec_digits_len(f, 6);
    let d = dec_digits(f);
    let p6 = pad6(d);
    assert(p6.len() == 6);
    assert forall|i: int| 0 <= i < p6.len() implies is_digit(#[trigger] p6[i]) by {
        if i < 6 - d.len() {
            assert(p6[i] == zero_chars((6 - d.len()) as nat)[i]);
        } else {
            assert(p6[i] == d[i - (6 - d.len())]);
        }
    }
    lemma_digits_val_zeros((6 - d.len()) as nat, d);
    assert(digits_val(p6) == f);
    let ft = trim0(p6);
    lemma_trim0(p6);
    assert forall|i: int| 0 <= i < ft.len() implies is_digit(#[trigger] ft[i]) by {
        assert(ft[i] == p6[i]);
    }
    assert(all_digits(ft));
    if ft.len() == 0 {
        assert(p6 =~= zero_chars(6nat));
        lemma_digits_val_all_zero(6nat);
        assert(false);
    }
    if ft.len() >= 6 {
        assert(ft =~= p6);
        assert(ft.subrange(0, 6) =~= p6);
        assert(frac_val(ft) == f);
    } else {
        let k = (6 - ft.len()) as nat;
        assert(ft + zero_chars(k) =~= p6);
        assert(frac_val(ft) == f);
    }
}

/// A printed micros value is never empty and holds no whitespace: it is
/// made of a sign, digits and a dot.
pub proof fn lemma_fmt_micros_text(v: int)
    ensures
        fmt_micros(v).len() >= 1,
        forall|i: int|
            0 <= i < fmt_micros(v).len() ==> !crate::text::is_ws(#[trigger] fmt_micros(v)[i]),
{
    let a = abs_int(v);
    let s = fmt_micros(v);
    let sign: Seq<char> = if v < 0 {
        seq!['-']
    } else {
        Seq::empty()
    };
    let ip = dec_digits((a / 1_000_000) as nat);
    let f = a % 1_000_000;
    lemma_dec_digits((a / 1_000_000) as nat);
    if f == 0 {
        assert(s == sign + ip);
        assert forall|i: int| 0 <= i < s.len() implies !crate::text::is_ws(#[trigger] s[i]) by {
            if i < sign.len() {
                assert(s[i] == '-');
            } else {
                assert(s[i] == ip[i - sign.len()]);
                assert(is_digit(ip[i - sign.len()]));
            }
        }
    } else {
        let ft = trim0(pad6(dec_digits(f as nat)));
        lemma_frac_round_trip(f as nat);
        assert(s == sign + ip + seq!['.'] + ft);
        let b0 = sign.len() as int;
        let b1 = b0 + ip.len() as int;
        assert forall|i: int| 0 <= i < s.len() implies !crate::text::is_ws(#[trigger] s[i]) by {
            if i < b0 {
                assert(s[i] == '-');
            } else if i < b1 {
                assert(s[i] == ip[i - b0]);
                assert(is_digit(ip[i - b0]));
            } else if i == b1 {
                assert(s[i] == '.');
            } else {
                assert(s[i] == ft[i - b1 - 1]);
                assert(is_digit(ft[i - b1 - 1]));
            }
        }
    }
}

/// Printing then parsing a micros value gives it back exactly.
pub proof fn lemma_parse_fmt_micros(v: int)
    ensures
        parse_micros(fmt_micros(v)) == Option::Some(v),
{
    let a = abs_int(v);
    lemma_parse_fmt_unsigned(a as nat);
    if v < 0 {
        let s = fmt_micros(v);
        let u = fmt_micros(a);
        assert(s =~= seq!['-'] + u);
        assert(s[0] == '-');
        assert(s.skip(1) =~= u);
        assert(abs_int(a) == a);
        assert(parse_unsigned_micros(u) == Option::Some(a));
        assert(parse_micros(s) == Option::Some(-a));
    } else {
        let s = fmt_micros(v);
        lemma_dec_digits((a / 1_000_000) as nat);
        let ip = dec_digits((a / 1_000_000) as nat);
        assert(is_digit(s[0])) by {
            if a % 1_000_000 == 0 {
                assert(s =~= ip);
            } else {
                assert(s[0] == ip[0]);
            }
        }
        assert(s[0] != '-' && s[0] != '+');
        assert(s.len() > 0);
        assert(parse_micros(s) == parse_unsigned_micros(s));
    }
}

/// Printing then parsing an unsigned micros value gives it back exactly.
proof fn lemma_parse_fmt_unsigned(a: nat)
    ensures
        parse_unsigned_micros(fmt_micros(a as int)) == Option::Some(a as int),
{
    let ip = dec_digits((a / 1_000_000) as nat);
    let f = a % 1_000_000;
    lemma_dec_digits((a / 1_000_000) as nat);
    lemma_digits_val_bounds(ip);
    vstd::arithmetic::div_mod::lemma_fundamental_div_mod(a as int, 1_000_000);
    if f == 0 {
        let t = fmt_micros(a as int);
        assert(t =~= ip);
        lemma_digits_prefix_unique(t, t.len() as int);
        assert(digits_prefix_len(t) == t.len());
        assert(t.subrange(0, t.len() as int) =~= ip);
        assert(parse_unsigned_micros(t) == Option::Some(digits_val(ip) * 1_000_000));
        assert(digits_val(ip) * 1_000_000 == (a / 1_000_000) * 1_000_000 + 0);
    } else {
        lemma_frac_round_trip(f as nat);
        let ft = trim0(pad6(dec_digits(f as nat)));
        let t = fmt_micros(a as int);
        assert(t =~= ip + seq!['.'] + ft);
        let ie = ip.len() as int;
        assert(forall|i: int| 0 <= i < ie ==> t[i] == ip[i]);
        assert(t[ie] == '.');
        assert(!is_digit('.'));
        lemma_digits_prefix_unique(t, ie);
        assert(t.subrange(0, ie) =~= ip);
        assert(t.skip(ie + 1) =~= ft);
        assert(all_digits(ft));
        assert(parse_unsigned_micros(t) == Option::Some(
            digits_val(ip) * 1_000_000 + frac_val(ft),
        ));
        assert(digits_val(ip) * 1_000_000 + frac_val(ft) == (a / 1_000_000) * 1_000_000 + f);
    }
}

/// Render `v` micros as decimal text.
pub fn fmt_micros_chars(v: i64) -> (r: Vec<char>)
    ensures
        r@ == fmt_micros(v as int),
{
    let a: u64 = if v < 0 {
        (-(v as i128)) as u64
    } else {
        v as u64
    };
    assert(a == abs_int(v as int));
    let mut r: Vec<char> = Vec::new();
    if v < 0 {
        r.push('-');
    }
    let mut ip = fmt_u64(a / 1_000_000);
    let f = a % 1_000_000;
    r.append(&mut ip);
    if f != 0 {
        r.push('.');
        let d = fmt_u64(f);
        proof {
            assert(pow10(6nat) == 1_000_000) by {
                reveal_with_fuel(pow10, 7);
            }
            lemma_dec_digits_len(f as nat, 6);
        }
        let mut fr: Vec<char> = Vec::new();
        let pad = 6 - d.len();
        let mut k: usize = 0;
        while k < pad
            invariant
                k <= pad,
                pad == 6 - dec_digits(f as nat).len(),
                fr@ =~= zero_chars(k as nat),
            decreases pad - k,
        {
            fr.push('0');
            proof {
                assert(fr@ =~= zero_chars((k + 1) as nat));
            }
            k = k + 1;
        }
        let mut dd = d;
        fr.append(&mut dd);
        proof {
            assert(fr@ =~= pad6(dec_digits(f as nat)));
        }
        let ghost fr0 = fr@;
        loop
            invariant
                trim0(fr@) =~= trim0(fr0),
            ensures
                fr@ =~= trim0(fr0),
            decreases fr@.len(),
        {
            if fr.len() == 0 {
                break;
            }
            let c = fr[fr.len() - 1];
            if c != '0' {
                break;
            }
            proof {
                assert(fr@.last() == '0');
            }
            fr.pop();
        }
        r.append(&mut fr);
    }
    proof {
        assert(r@ =~= fmt_micros(v as int));
    }
    r
}

/// Parse decimal text as micros. `Ok` exactly when the text is a
/// well-formed decimal whose magnitude stays within [`MAX_MICROS`].
#[verifier::rlimit(60)]
pub fn parse_micros_chars(v: &Vec<char>) -> (r: Result<i64, Error>)
    ensures
        match r {
            Ok(x) => {
                &&& parse_micros(v@) == Option::Some(x as int)
                &&& abs_int(x as int) <= MAX_MICROS
            },
            Err(e) => {
                &&& e == Error::Parse
                &&& match parse_micros(v@) {
                    Option::Some(val) => abs_int(val) > MAX_MICROS,
                    Option::None => true,
                }
            },
        },
{
    if v.len() == 0 {
        return Err(Error::Parse);
    }
    let c0 = v[0];
    let neg = c0 == '-';
    let s: usize = if c0 == '-' || c0 == '+' {
        1
    } else {
        0
    };
    let ghost t = v@.skip(s as int);
    proof {
        assert(forall|k: int| 0 <= k < t.len() ==> t[k] == #[trigger] v@[k + s]);
        assert(s == 0 ==> t == v@) by {
            assert(v@.skip(0) =~= v@);
        }
        lemma_digits_prefix(t);
    }
    let j = scan_digits_from(v, s);
    let ghost jj = j - s;
    proof {
        assert(jj == digits_prefix_len(t));
        assert forall|k: int| s <= k < j implies is_digit(#[trigger] v@[k]) by {
            assert(v@[k] == t[k - s]);
        }
        assert(t.subrange(0, jj) =~= v@.subrange(s as int, j as int));
    }
    let ip_count = j - s;
    let ip = match digits_to_u64(v, s, j) {
        Some(n) => n,
        None => {
            proof {
                lemma_unsigned_overflow(t, digits_val(t.subrange(0, jj)));
                assert(match parse_micros(v@) {
                    Option::Some(val) => abs_int(val) > MAX_MICROS as int,
                    Option::None => true,
                });
            }
            return Err(Error::Parse);
        },
    };
    proof {
        assert(ip == digits_val(t.subrange(0, jj)));
        lemma_digits_val_bounds(t.subrange(0, jj));
    }
    if j == v.len() {
        if ip_count == 0 {
            proof {
                assert(parse_unsigned_micros(t) is None);
                assert(parse_micros(v@) is None);
            }
            return Err(Error::Parse);
        }
        proof {
            assert(jj == t.len());
            assert(parse_unsigned_micros(t) == Option::Some(ip * 1_000_000 + 0));
        }
        finish_micros(ip, 0, neg, Ghost(v@), Ghost(t))
    } else if v[j] == '.' {
        let ghost fr = t.skip(jj + 1);
        proof {
            assert(t[jj] == v@[j as int]);
            assert(fr.len() == v@.len() - j - 1);
            assert(forall|k: int| 0 <= k < fr.len() ==> fr[k] == #[trigger] v@[k + j + 1]);
            assert(fr =~= v@.skip(j + 1));
            lemma_digits_prefix(v@.skip(j + 1));
        }
        let fe = scan_digits_from(v, j + 1);
        if fe < v.len() {
            proof {
                assert(!is_digit(v@.skip(j + 1)[fe - j - 1]));
                assert(fr[fe - j - 1] == v@.skip(j + 1)[fe - j - 1]);
                assert(!all_digits(fr));
                assert(parse_unsigned_micros(t) is None);
                assert(parse_micros(v@) is None);
            }
            return Err(Error::Parse);
        }
        proof {
            assert forall|k: int| 0 <= k < fr.len() implies is_digit(#[trigger] fr[k]) by {
                assert(fr[k] == v@.skip(j + 1)[k]);
            }
            assert(all_digits(fr));
            assert forall|k: int| j + 1 <= k < v@.len() implies is_digit(#[trigger] v@[k]) by {
                assert(v@[k] == fr[k - j - 1]);
            }
            assert(pow10(6nat) == 1_000_000) by {
                reveal_with_fuel(pow10, 7);
            }
        }
        let fr_count = v.len() - (j + 1);
        if ip_count == 0 && fr_count == 0 {
            proof {
                assert(parse_unsigned_micros(t) is None);
                assert(parse_micros(v@) is None);
            }
            return Err(Error::Parse);
        }
        let frac: u64 = if fr_count >= 6 {
            proof {
                assert(fr.subrange(0, 6) =~= v@.subrange(j + 1, j + 7));
                assert(all_digits(fr.subrange(0, 6)));
                lemma_digits_val_bounds(fr.subrange(0, 6));
            }
            let x = match digits_to_u64(v, j + 1, j + 7) {
                Some(n) => n,
                None => {
                    proof {
                        assert(false);
                    }
                    return Err(Error::Parse);
                },
            };
            proof {
                assert(x == frac_val(fr));
            }
            x
        } else {
            proof {
                assert(fr =~= v@.subrange(j + 1, v@.len() as int));
                lemma_digits_val_bounds(fr);
                lemma_pow10_le(fr.len(), 6nat);
            }
            let x = match digits_to_u64(v, j + 1, v.len()) {
                Some(n) => n,
                None => {
                    proof {
                        assert(false);
                    }
                    return Err(Error::Parse);
                },
            };
            let mut scale: u64 = 1;
            let mut k: usize = fr_count;
            while k < 6
                invariant
                    fr_count <= k <= 6,
                    scale == pow10((k - fr_count) as nat),
                decreases 6 - k,
            {
                proof {
                    lemma_pow10_le((k - fr_count) as nat, 5nat);
                    assert(pow10(5nat) == 100_000) by {
                        reveal_with_fuel(pow10, 6);
                    }
                    assert(pow10(((k + 1) - fr_count) as nat) == 10 * pow10(
                        (k - fr_count) as nat,
                    ));
                }
                scale = scale * 10;
                k = k + 1;
            }
            proof {
                assert(scale == pow10((6 - fr.len()) as nat));
                lemma_pow10_le(0nat, (6 - fr.len()) as nat);
                assert(pow10(0nat) == 1);
                lemma_pow10_mul(fr.len(), (6 - fr.len()) as nat);
                assert(pow10(fr.len()) * pow10((6 - fr.len()) as nat) == 1_000_000);
                lemma_digits_val_append_zeros(fr, (6 - fr.len()) as nat);
                assert(frac_val(fr) == digits_val(fr) * pow10((6 - fr.len()) as nat));
                assert(x * scale == frac_val(fr) && x * scale < 1_000_000) by (nonlinear_arith)
                    requires
                        0 <= x,
                        x == digits_val(fr),
                        x < pow10(fr.len()),
                        1 <= scale,
                        scale == pow10((6 - fr.len()) as nat),
                        pow10(fr.len()) * pow10((6 - fr.len()) as nat) == 1_000_000,
                        frac_val(fr) == digits_val(fr) * pow10((6 - fr.len()) as nat),
                ;
            }
            x * scale
        };
        proof {
            assert(parse_unsigned_micros(t) == Option::Some(ip * 1_000_000 + frac));
        }
        finish_micros(ip, frac, neg, Ghost(v@), Ghost(t))
    } else {
        proof {
            assert(t[jj] == v@[j as int]);
            assert(parse_unsigned_micros(t) is None);
            assert(parse_micros(v@) is None);
        }
        return Err(Error::Parse);
    }
}

/// `10^a <= 10^b` when `a <= b`.
proof fn lemma_pow10_le(a: nat, b: nat)
    requires
        a <= b,
    ensures
        pow10(a) <= pow10(b),
    decreases b,
{
    if a < b {
        lemma_pow10_le(a, (b - 1) as nat);
        assert(pow10(b) == 10 * pow10((b - 1) as nat));
    }
}

/// `10^a * 10^b == 10^(a+b)`.
proof fn lemma_pow10_mul(a: nat, b: nat)
    ensures
        pow10(a) * pow10(b) == pow10(a + b),
    decreases a,
{
    if a == 0 {
        assert(pow10(0nat) == 1);
    } else {
        lemma_pow10_mul((a - 1) as nat, b);
        assert(pow10(a) == 10 * pow10((a - 1) as nat));
        assert(pow10(a + b) == 10 * pow10((a + b - 1) as nat));
        assert((10 * pow10((a - 1) as nat)) * pow10(b) == 10 * (pow10((a - 1) as nat) * pow10(b)))
            by (nonlinear_arith);
    }
}

/// An integer part too large for a `u64` puts the whole value over the cap.
proof fn lemma_unsigned_overflow(t: Seq<char>, ipv: int)
    requires
        ipv > u64::MAX,
        ipv == digits_val(t.subrange(0, digits_prefix_len(t) as int)),
    ensures
        match parse_unsigned_micros(t) {
            Option::Some(val) => abs_int(val) > MAX_MICROS,
            Option::None => true,
        },
{
    let ie = digits_prefix_len(t) as int;
    lemma_digits_prefix(t);
    if ie == t.len() {
        if ie != 0 {
            assert(ipv * 1_000_000 > MAX_MICROS) by (nonlinear_arith)
                requires
                    ipv > u64::MAX,
            ;
        }
    } else if t[ie] == '.' {
        let fr = t.skip(ie + 1);
        if all_digits(fr) && !(ie == 0 && fr.len() == 0) {
            lemma_frac_val_bounds(fr);
            assert(ipv * 1_000_000 + frac_val(fr) > MAX_MICROS) by (nonlinear_arith)
                requires
                    ipv > u64::MAX,
                    frac_val(fr) >= 0,
            ;
        }
    }
}

/// A fraction's value lies in `[0, 1_000_000)`.
proof fn lemma_frac_val_bounds(fr: Seq<char>)
    requires
        all_digits(fr),
    ensures
        0 <= frac_val(fr) < 1_000_000,
{
    assert(pow10(6nat) == 1_000_000) by {
        reveal_with_fuel(pow10, 7);
    }
    if fr.len() >= 6 {
        assert(all_digits(fr.subrange(0, 6)));
        lemma_digits_val_bounds(fr.subrange(0, 6));
    } else {
        let p = fr + zero_chars((6 - fr.len()) as nat);
        assert(all_digits(p)) by {
            assert(forall|i: int|
                fr.len() <= i < 6 ==> p[i] == #[trigger] zero_chars((6 - fr.len()) as nat)[i
                    - fr.len()]);
        }
        lemma_digits_val_bounds(p);
    }
}

/// Combine integer part, fraction and sign, enforcing the cap.
fn finish_micros(ip: u64, frac: u64, neg: bool, Ghost(s): Ghost<Seq<char>>, Ghost(t): Ghost<
    Seq<char>,
>) -> (r: Result<i64, Error>)
    requires
        frac < 1_000_000,
        parse_unsigned_micros(t) == Option::Some(ip * 1_000_000 + frac),
        s.len() > 0,
        neg <==> s[0] == '-',
        (s[0] == '-' || s[0] == '+') ==> t == s.skip(1),
        !(s[0] == '-' || s[0] == '+') ==> t == s,
    ensures
        match r {
            Ok(x) => {
                &&& parse_micros(s) == Option::Some(x as int)
                &&& abs_int(x as int) <= MAX_MICROS
            },
            Err(e) => {
                &&& e == Error::Parse
                &&& match parse_micros(s) {
                    Option::Some(val) => abs_int(val) > MAX_MICROS,
                    Option::None => true,
                }
            },
        },
{
    if ip > 1_000_000_000 {
        proof {
            assert(ip * 1_000_000 + frac > MAX_MICROS) by (nonlinear_arith)
                requires
                    ip > 1_000_000_000,
                    frac >= 0,
            ;
        }
        return Err(Error::Parse);
    }
    let total: u64 = ip * 1_000_000 + frac;
    if total > MAX_MICROS as u64 {
        return Err(Error::Parse);
    }
    if neg {
        Ok(-(total as i64))
    } else {
        Ok(total as i64)
    }
}

/// Parse, refusing any failure with a parse error (convenience over
/// [`parse_micros_chars`] for a whole string).
pub fn parse_micros_str(s: &str) -> (r: Result<i64, Error>)
    ensures
        match r {
            Ok(x) => {
                &&& parse_micros(s@) == Option::Some(x as int)
                &&& abs_int(x as int) <= MAX_MICROS
            },
            Err(e) => {
                &&& e == Error::Parse
                &&& match parse_micros(s@) {
                    Option::Some(val) => abs_int(val) > MAX_MICROS,
                    Option::None => true,
                }
            },
        },
{
    let v = crate::text::str_chars(s);
    parse_micros_chars(&v)
}

/// Render `v` micros as a string.
pub fn fmt_micros_string(v: i64) -> (r: String)
    ensures
        r@ == fmt_micros(v as int),
{
    let chars = fmt_micros_chars(v);
    crate::text::string_of(&chars)
}

/// Scan the maximal digit run from `i`, like [`scan_digits`], clamping a
/// start past the end.
fn scan_digits_from(v: &Vec<char>, i: usize) -> (j: usize)
    requires
        i <= v@.len() + 1,
    ensures
        i <= j,
        j <= v@.len() || j == i,
        i <= v@.len() ==> j <= v@.len() && j - i == digits_prefix_len(v@.skip(i as int)),
{
    if i > v.len() {
        return i;
    }
    scan_digits(v, i)
}

} // verus!
