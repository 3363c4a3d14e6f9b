//! The 64-bit render seed, its lowercase-hex textual form, and the
//! generator it deterministically derives.

use vstd::prelude::*;
use crate::error::Error;
use crate::rng::Rng;
use crate::text::{concat_str, str_chars, string_of};

verus! {

/// `c` is a hexadecimal digit, either case.
pub open spec fn is_hex_digit(c: char) -> bool {
    ('0' <= c && c <= '9') || ('a' <= c && c <= 'f') || ('A' <= c && c <= 'F')
}

/// Numeric value of a hexadecimal digit character.
pub open spec fn hex_val(c: char) -> int {
    if '0' <= c && c <= '9' {
        c as int - '0' as int
    } else if 'a' <= c && c <= 'f' {
        10 + c as int - 'a' as int
    } else {
        10 + c as int - 'A' as int
    }
}

/// The lowercase character for a hexadecimal digit value.
pub open spec fn hex_char(d: int) -> char {
    if d == 0 {
        '0'
    } else if d == 1 {
        '1'
    } else if d == 2 {
        '2'
    } else if d == 3 {
        '3'
    } else if d == 4 {
        '4'
    } else if d == 5 {
        '5'
    } else if d == 6 {
        '6'
    } else if d == 7 {
        '7'
    } else if d == 8 {
        '8'
    } else if d == 9 {
        '9'
    } else if d == 10 {
        'a'
    } else if d == 11 {
        'b'
    } else if d == 12 {
        'c'
    } else if d == 13 {
        'd'
    } else if d == 14 {
        'e'
    } else {
        'f'
    }
}

/// The number denoted by a hexadecimal digit string, most significant
/// digit first.
pub open spec fn hex_digits_val(s: Seq<char>) -> int
    decreases s.len(),
{
    if s.len() == 0 {
        0
    } else {
        hex_digits_val(s.drop_last()) * 16 + hex_val(s.last())
    }
}

/// Every character of `s` is a hexadecimal digit.
pub open spec fn all_hex_digits(s: Seq<char>) -> bool {
    forall|i: int| 0 <= i < s.len() ==> is_hex_digit(#[trigger] s[i])
}

/// `w` lowercase hexadecimal digits of `n`, most significant first.
pub open spec fn hex_fixed(n: nat, w: nat) -> Seq<char>
    decreases w,
{
    if w == 0 {
        Seq::empty()
    } else {
        hex_fixed(n / 16, (w - 1) as nat) + seq![hex_char((n % 16) as int)]
    }
}

/// The value denoted by a seed string: an optional `+`, then at least one
/// hexadecimal digit, read base sixteen.
pub open spec fn parse_hex(s: Seq<char>) -> Option<int> {
    let t = if s.len() > 0 && s[0] == '+' {
        s.skip(1)
    } else {
        s
    };
    if t.len() > 0 && all_hex_digits(t) {
        Option::Some(hex_digits_val(t))
    } else {
        Option::None
    }
}

/// A 64-bit seed: the whole render stream is a pure function of it.
#[derive(Clone, Copy, Debug, PartialEq, Eq, Structural)]
pub struct Seed {
    pub v: u64,
}

impl Seed {
    pub fn new(v: u64) -> (s: Self)
        ensures
            s.v == v,
    {
        Self { v }
    }

    pub fn value(&self) -> (v: u64)
        ensures
            v == self.v,
    {
        self.v
    }

    /// Parse a hexadecimal seed string. `Ok` exactly when the text is
    /// hexadecimal with a value that fits 64 bits.
    pub fn from_str(s: &str) -> (r: Result<Seed, Error>)
        ensures
            match r {
                Ok(sd) => parse_hex(s@) == Option::Some(sd.v as int),
                Err(e) => {
                    &&& e == Error::Parse
                    &&& match parse_hex(s@) {
                        Option::Some(val) => val > u64::MAX,
                        Option::None => true,
                    }
                },
            },
    {
        let v = str_chars(s);
        let start: usize = if v.len() > 0 && v[0] == '+' {
            1
        } else {
            0
        };
        let ghost t = if s@.len() > 0 && s@[0] == '+' {
            s@.skip(1)
        } else {
            s@
        };
        proof {
            assert(start == 0 ==> t == v@) by {
                assert(v@.skip(0) =~= v@);
            }
            assert(forall|k: int| 0 <= k < t.len() ==> t[k] == #[trigger] v@[k + start]);
        }
        if v.len() == start {
            return Err(Error::Parse);
        }
        let mut acc: u64 = 0;
        let mut i: usize = start;
        proof {
            assert(t.subrange(0, 0) =~= Seq::<char>::empty());
        }
        while i < v.len()
            invariant
                v@ == s@,
                t == (if s@.len() > 0 && s@[0] == '+' {
                    s@.skip(1)
                } else {
                    s@
                }),
                start <= 1,
                (s@.len() > 0 && s@[0] == '+') <==> start == 1,
                start <= i <= v@.len(),
                t.len() == v@.len() - start,
                forall|k: int| 0 <= k < t.len() ==> t[k] == #[trigger] v@[k + start],
                forall|k: int| 0 <= k < i - start ==> is_hex_digit(#[trigger] t[k]),
                acc == hex_digits_val(t.subrange(0, i - start)),
            decreases v@.len() - i,
        {
            let c = v[i];
            let d: u64 = if '0' <= c && c <= '9' {
                (c as u32 - '0' as u32) as u64
            } else if 'a' <= c && c <= 'f' {
                (10 + c as u32 - 'a' as u32) as u64
            } else if 'A' <= c && c <= 'F' {
                (10 + c as u32 - 'A' as u32) as u64
            } else {
                proof {
                    assert(t[i - start] == v@[(i - start) + start]);
                    assert(!is_hex_digit(c));
                }
                return Err(Error::Parse);
            };
            proof {
                assert(t[i - start] == v@[(i - start) + start]);
                assert(is_hex_digit(c));
                assert(d == hex_val(c));
                crate::seed::lemma_hex_digits_val_push(t.subrange(0, i - start), c);
                assert(t.subrange(0, i - start + 1) =~= t.subrange(0, i - start).push(c));
            }
            let hi = match acc.checked_mul(16) {
                Some(m) => m,
                None => {
                    proof {
                        lemma_hex_val_grows(t, i - start + 1);
                    }
                    return Err(Error::Parse);
                },
            };
            let a2 = match hi.checked_add(d) {
                Some(a) => a,
                None => {
                    proof {
                        lemma_hex_val_grows(t, i - start + 1);
                    }
                    return Err(Error::Parse);
                },
            };
            acc = a2;
            i = i + 1;
        }
        proof {
            assert(t.subrange(0, t.len() as int) =~= t);
            assert(all_hex_digits(t));
        }
        Ok(Seed { v: acc })
    }

    /// Parse a seed, reporting failure as the message `invalid seed: `
    /// followed by the input.
    pub fn from_arg(s: &str) -> (r: Result<Seed, String>)
        ensures
            match r {
                Ok(sd) => parse_hex(s@) == Option::Some(sd.v as int),
                Err(m) => {
                    &&& m@ == "invalid seed: "@ + s@
                    &&& match parse_hex(s@) {
                        Option::Some(val) => val > u64::MAX,
                        Option::None => true,
                    }
                },
            },
    {
        match Seed::from_str(s) {
            Ok(sd) => Ok(sd),
            Err(_) => Err(concat_str("invalid seed: ", s)),
        }
    }

    /// The canonical textual form: sixteen lowercase hexadecimal digits.
    pub fn to_display(&self) -> (r: String)
        ensures
            r@ == hex_fixed(self.v as nat, 16),
    {
        let mut digits: Vec<char> = Vec::new();
        let mut w: usize = 0;
        let mut n: u64 = self.v;
        while w < 16
            invariant
                w <= 16,
                digits@.len() == w,
                n == shr16(self.v as nat, w as nat),
                forall|j: int| 0 <= j < w ==> digits@[j] == hex_char(
                    (shr16(self.v as nat, j as nat) % 16) as int,
                ),
            decreases 16 - w,
        {
            let d = n % 16;
            digits.push(hex_char_of(d));
            n = n / 16;
            proof {
                assert(shr16(self.v as nat, (w + 1) as nat) == shr16(self.v as nat, w as nat)
                    / 16);
            }
            w = w + 1;
        }
        let mut out: Vec<char> = Vec::new();
        let mut k: usize = 0;
        while k < 16
            invariant
                k <= 16,
                digits@.len() == 16,
                out@.len() == k,
                forall|j: int| 0 <= j < 16 ==> digits@[j] == hex_char(
                    (shr16(self.v as nat, j as nat) % 16) as int,
                ),
                forall|i: int| 0 <= i < k ==> out@[i] == digits@[15 - i],
            decreases 16 - k,
        {
            out.push(digits[15 - k]);
            k = k + 1;
        }
        proof {
            lemma_hex_fixed_index(self.v as nat, 16);
            assert forall|i: int| 0 <= i < 16 implies out@[i] == hex_fixed(self.v as nat, 16)[i]
                by {
                assert(out@[i] == digits@[15 - i]);
                assert(hex_fixed(self.v as nat, 16)[i] == hex_char(
                    (shr16(self.v as nat, (16 - 1 - i) as nat) % 16) as int,
                ));
            }
            assert(out@ =~= hex_fixed(self.v as nat, 16));
        }
        string_of(&out)
    }

    /// The deterministic generator derived from this seed.
    pub fn rng(&self) -> (r: Rng)
        ensures
            crate::rng::rng_wf(r),
            r.seed@ == self.v,
            r.drawn@ == 0,
    {
        Rng::from_seed(self.v)
    }
}

/// `n` with `k` hexadecimal digits divided out.
pub open spec fn shr16(n: nat, k: nat) -> nat
    decreases k,
{
    if k == 0 {
        n
    } else {
        shr16(n, (k - 1) as nat) / 16
    }
}

/// Dividing out digits one at a time or first-by-one agree.
proof fn lemma_shr16_swap(n: nat, k: nat)
    ensures
        shr16(n / 16, k) == shr16(n, k + 1),
    decreases k,
{
    if k == 0 {
        assert(shr16(n, 1nat) == shr16(n, 0nat) / 16);
    } else {
        lemma_shr16_swap(n, (k - 1) as nat);
        assert(shr16(n / 16, k) == shr16(n / 16, (k - 1) as nat) / 16);
        assert(shr16(n, k + 1) == shr16(n, k) / 16);
    }
}

/// The fixed-width rendering, character by character: position `w-1-j`
/// holds the `j`-th digit from the right.
proof fn lemma_hex_fixed_index(n: nat, w: nat)
    ensures
        hex_fixed(n, w).len() == w,
        forall|j: int| 0 <= j < w ==> hex_fixed(n, w)[w - 1 - j] == hex_char(
            (#[trigger] shr16(n, j as nat) % 16) as int,
        ),
    decreases w,
{
    if w > 0 {
        lemma_hex_fixed_index(n / 16, (w - 1) as nat);
        let h = hex_fixed(n, w);
        let p = hex_fixed(n / 16, (w - 1) as nat);
        assert forall|j: int| 0 <= j < w implies h[w - 1 - j] == hex_char(
            (#[trigger] shr16(n, j as nat) % 16) as int,
        ) by {
            if j == 0 {
                assert(h[w - 1] == hex_char((n % 16) as int));
            } else {
                assert(h[w - 1 - j] == p[(w - 1) - 1 - (j - 1)]);
                lemma_shr16_swap(n, (j - 1) as nat);
            }
        }
    }
}

/// Appending a hex digit multiplies the value by sixteen and adds it.
pub proof fn lemma_hex_digits_val_push(s: Seq<char>, c: char)
    ensures
        hex_digits_val(s.push(c)) == hex_digits_val(s) * 16 + hex_val(c),
{
    assert(s.push(c).drop_last() =~= s);
    assert(s.push(c).last() == c);
}

/// A longer hex digit prefix never denotes less.
proof fn lemma_hex_val_grows(t: Seq<char>, k: int)
    requires
        0 <= k <= t.len(),
        forall|i: int| 0 <= i < k ==> is_hex_digit(#[trigger] t[i]),
    ensures
        all_hex_digits(t) ==> hex_digits_val(t) >= hex_digits_val(t.subrange(0, k)),
    decreases t.len() - k,
{
    if k < t.len() {
        if all_hex_digits(t) {
            lemma_hex_val_grows(t, k + 1);
            lemma_hex_digits_val_push(t.subrange(0, k), t[k]);
            assert(t.subrange(0, k + 1) =~= t.subrange(0, k).push(t[k]));
            lemma_hex_val_nonneg(t.subrange(0, k));
            assert(is_hex_digit(t[k]));
        }
    } else {
        assert(t.subrange(0, k) =~= t);
    }
}

/// A hex digit string denotes at least zero.
proof fn lemma_hex_val_nonneg(s: Seq<char>)
    requires
        all_hex_digits(s),
    ensures
        hex_digits_val(s) >= 0,
    decreases s.len(),
{
    if s.len() > 0 {
        assert(all_hex_digits(s.drop_last()));
        lemma_hex_val_nonneg(s.drop_last());
        assert(is_hex_digit(s.last()));
    }
}

/// The lowercase character for a hexadecimal digit value, as executable
/// code.
fn hex_char_of(d: u64) -> (c: char)
    requires
        d < 16,
    ensures
        c == hex_char(d as int),
{
    if d == 0 {
        '0'
    } else if d == 1 {
        '1'
    } else if d == 2 {
        '2'
    } else if d == 3 {
        '3'
    } else if d == 4 {
        '4'
    } else if d == 5 {
        '5'
    } else if d == 6 {
        '6'
    } else if d == 7 {
        '7'
    } else if d == 8 {
        '8'
    } else if d == 9 {
        '9'
    } else if d == 10 {
        'a'
    } else if d == 11 {
        'b'
    } else if d == 12 {
        'c'
    } else if d == 13 {
        'd'
    } else if d == 14 {
        'e'
    } else {
        'f'
    }
}

} // verus!
