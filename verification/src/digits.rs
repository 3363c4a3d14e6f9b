//! Decimal digits: rendering a number as digit characters, reading digit
//! characters back, and the lemmas that make the two inverses of each other.

use vstd::prelude::*;

verus! {

/// `c` is an ASCII decimal digit.
pub open spec fn is_digit(c: char) -> bool {
    '0' <= c && c <= '9'
}

/// Numeric value of a digit character.
pub open spec fn digit_val(c: char) -> int {
    c as int - '0' as int
}

/// The digit character for a value below ten.
pub open spec fn digit_char(d: int) -> char {
    if d == 0 {
        '0'
    } else if d == 1 {
        '1'
    } else if d == 2 {
        '2'
    } else if d == 3 {
        '3'
    } else if d == 4 {
        '4'
    } else if d == 5 {
        '5'
    } else if d == 6 {
        '6'
    } else if d == 7 {
        '7'
    } else if d == 8 {
        '8'
    } else {
        '9'
    }
}

/// Every character of `s` is a decimal digit.
pub open spec fn all_digits(s: Seq<char>) -> bool {
    forall|i: int| 0 <= i < s.len() ==> is_digit(#[trigger] s[i])
}

/// The number denoted by a digit string, most significant digit first.
pub open spec fn digits_val(s: Seq<char>) -> int
    decreases s.len(),
{
    if s.len() == 0 {
        0
    } else {
        digits_val(s.drop_last()) * 10 + digit_val(s.last())
    }
}

/// The shortest decimal rendering of `n` (a single `'0'` for zero).
pub open spec fn dec_digits(n: nat) -> Seq<char>
    decreases n,
{
    if n < 10 {
        seq![digit_char(n as int)]
    } else {
        dec_digits(n / 10) + seq![digit_char((n % 10) as int)]
    }
}

/// A run of `k` zero characters.
pub open spec fn zero_chars(k: nat) -> Seq<char> {
    Seq::new(k, |i: int| '0')
}

/// `10^k`.
pub open spec fn pow10(k: nat) -> nat
    decreases k,
{
    if k == 0 {
        1
    } else {
        10 * pow10((k - 1) as nat)
    }
}

/// Length of the maximal digit prefix of `s`.
pub open spec fn digits_prefix_len(s: Seq<char>) -> nat
    decreases s.len(),
{
    if s.len() == 0 || !is_digit(s[0]) {
        0
    } else {
        1 + digits_prefix_len(s.skip(1))
    }
}

pub proof fn lemma_digit_char(d: int)
    requires
        0 <= d < 10,
    ensures
        is_digit(digit_char(d)),
        digit_val(digit_char(d)) == d,
{
}

/// Appending a digit multiplies the value by ten and adds the digit.
pub proof fn lemma_digits_val_push(s: Seq<char>, c: char)
    ensures
        digits_val(s.push(c)) == digits_val(s) * 10 + digit_val(c),
{
    assert(s.push(c).drop_last() =~= s);
    assert(s.push(c).last() == c);
}

/// A digit string denotes a value below `10^len`, and at least zero.
pub proof fn lemma_digits_val_bounds(s: Seq<char>)
    requires
        all_digits(s),
    ensures
        0 <= digits_val(s) < pow10(s.len()),
    decreases s.len(),
{
    if s.len() == 0 {
    } else {
        assert(all_digits(s.drop_last()));
        lemma_digits_val_bounds(s.drop_last());
        assert(is_digit(s.last()));
        assert(0 <= digit_val(s.last()) < 10);
        assert(pow10(s.len()) == 10 * pow10((s.len() - 1) as nat));
    }
}

/// The rendering of `n` is made of digits and denotes `n`.
pub proof fn lemma_dec_digits(n: nat)
    ensures
        all_digits(dec_digits(n)),
        digits_val(dec_digits(n)) == n,
        dec_digits(n).len() >= 1,
    decreases n,
{
    if n < 10 {
        lemma_digit_char(n as int);
        let s = dec_digits(n);
        assert(s.drop_last() =~= Seq::<char>::empty());
        assert(digits_val(Seq::<char>::empty()) == 0);
        assert(s.last() == digit_char(n as int));
    } else {
        lemma_dec_digits(n / 10);
        lemma_digit_char((n % 10) as int);
        let p = dec_digits(n / 10);
        let c = digit_char((n % 10) as int);
        assert(dec_digits(n) =~= p.push(c));
        lemma_digits_val_push(p, c);
        assert(digits_val(dec_digits(n)) == (n / 10) * 10 + n % 10);
        assert((n / 10) * 10 + n % 10 == n) by {
            vstd::arithmetic::div_mod::lemma_fundamental_div_mod(n as int, 10);
        }
        assert(forall|i: int| 0 <= i < p.push(c).len() ==> is_digit(#[trigger] p.push(c)[i])) by {
            assert(all_digits(p));
        }
    }
}

/// Rendering stays within `k` digits whenever `n < 10^k`.
pub proof fn lemma_dec_digits_len(n: nat, k: nat)
    requires
        n < pow10(k),
        k >= 1,
    ensures
        dec_digits(n).len() <= k,
    decreases n,
{
    if n < 10 {
    } else {
        if k == 1 {
            assert(pow10(0nat) == 1);
            assert(pow10(1nat) == 10);
        } else {
            assert(pow10(k) == 10 * pow10((k - 1) as nat));
            lemma_dec_digits_len(n / 10, (k - 1) as nat);
        }
    }
}

/// Zeros in front of a digit string do not change its value.
pub proof fn lemma_digits_val_zeros(k: nat, s: Seq<char>)
    ensures
        digits_val(zero_chars(k) + s) == digits_val(s),
    decreases s.len(),
{
    if s.len() == 0 {
        assert(zero_chars(k) + s =~= zero_chars(k));
        lemma_digits_val_all_zero(k);
    } else {
        assert((zero_chars(k) + s).drop_last() =~= zero_chars(k) + s.drop_last());
        assert((zero_chars(k) + s).last() == s.last());
        lemma_digits_val_zeros(k, s.drop_last());
    }
}

/// A string of only zeros denotes zero.
pub proof fn lemma_digits_val_all_zero(k: nat)
    ensures
        digits_val(zero_chars(k)) == 0,
    decreases k,
{
    if k == 0 {
        assert(zero_chars(0nat) =~= Seq::<char>::empty());
    } else {
        assert(zero_chars(k).drop_last() =~= zero_chars((k - 1) as nat));
        assert(zero_chars(k).last() == '0');
        lemma_digits_val_all_zero((k - 1) as nat);
    }
}

/// The maximal digit prefix: everything before it is a digit, and it stops
/// at the end or at a non-digit.
pub proof fn lemma_digits_prefix(s: Seq<char>)
    ensures
        digits_prefix_len(s) <= s.len(),
        forall|i: int| 0 <= i < digits_prefix_len(s) ==> is_digit(#[trigger] s[i]),
        digits_prefix_len(s) < s.len() ==> !is_digit(s[digits_prefix_len(s) as int]),
    decreases s.len(),
{
    if s.len() == 0 || !is_digit(s[0]) {
    } else {
        lemma_digits_prefix(s.skip(1));
        let e = digits_prefix_len(s) as int;
        assert forall|i: int| 0 <= i < e implies is_digit(#[trigger] s[i]) by {
            if i >= 1 {
                assert(s.skip(1)[i - 1] == s[i]);
            }
        }
        if e < s.len() {
            assert(s.skip(1)[e - 1] == s[e]);
        }
    }
}

/// Any cut that is all digits and stops at the end or a non-digit is the
/// maximal digit prefix.
pub proof fn lemma_digits_prefix_unique(s: Seq<char>, j: int)
    requires
        0 <= j <= s.len(),
        forall|i: int| 0 <= i < j ==> is_digit(#[trigger] s[i]),
        j < s.len() ==> !is_digit(s[j]),
    ensures
        j == digits_prefix_len(s),
{
    lemma_digits_prefix(s);
    let e = digits_prefix_len(s) as int;
    if j < e {
        assert(is_digit(s[j]));
    } else if e < j {
        assert(is_digit(s[e]));
    }
}

/// The digit character for a value below ten, as executable code.
pub fn digit_of(d: u64) -> (c: char)
    requires
        d < 10,
    ensures
        c == digit_char(d as int),
{
    if d == 0 {
        '0'
    } else if d == 1 {
        '1'
    } else if d == 2 {
        '2'
    } else if d == 3 {
        '3'
    } else if d == 4 {
        '4'
    } else if d == 5 {
        '5'
    } else if d == 6 {
        '6'
    } else if d == 7 {
        '7'
    } else if d == 8 {
        '8'
    } else {
        '9'
    }
}

/// Numeric value of a digit character, as executable code.
pub fn digit_value(c: char) -> (d: u32)
    requires
        is_digit(c),
    ensures
        d == digit_val(c),
{
    (c as u32) - ('0' as u32)
}

/// Whether `c` is a decimal digit, as executable code.
pub fn is_digit_char(c: char) -> (b: bool)
    ensures
        b == is_digit(c),
{
    '0' <= c && c <= '9'
}

/// Render `n` as decimal digits.
pub fn fmt_u64(n: u64) -> (v: Vec<char>)
    ensures
        v@ == dec_digits(n as nat),
    decreases n,
{
    if n < 10 {
        let mut v: Vec<char> = Vec::new();
        v.push(digit_of(n));
        proof {
            assert(v@ =~= dec_digits(n as nat));
        }
        v
    } else {
        let mut v = fmt_u64(n / 10);
        v.push(digit_of(n % 10));
        proof {
            assert(v@ =~= dec_digits(n as nat));
        }
        v
    }
}

/// Scan the maximal run of digits in `v` starting at `i`.
pub fn scan_digits(v: &Vec<char>, i: usize) -> (j: usize)
    requires
        i <= v@.len(),
    ensures
        i <= j <= v@.len(),
        j - i == digits_prefix_len(v@.skip(i as int)),
    decreases v@.len() - i,
{
    let mut j: usize = i;
    while j < v.len() && is_digit_char(v[j])
        invariant
            i <= j <= v@.len(),
            forall|k: int| i <= k < j ==> is_digit(#[trigger] v@[k]),
        decreases v@.len() - j,
    {
        j = j + 1;
    }
    proof {
        let t = v@.skip(i as int);
        assert(forall|k: int| 0 <= k < j - i ==> t[k] == #[trigger] v@[k + i]);
        assert(j < v@.len() ==> t[j - i] == v@[j as int]);
        lemma_digits_prefix_unique(t, j - i);
    }
    j
}

/// Read the digits `v[i..j]` as a number, refusing one above `u64::MAX`.
pub fn digits_to_u64(v: &Vec<char>, i: usize, j: usize) -> (r: Option<u64>)
    requires
        i <= j <= v@.len(),
        forall|k: int| i <= k < j ==> is_digit(#[trigger] v@[k]),
    ensures
        match r {
            Some(n) => n == digits_val(v@.subrange(i as int, j as int)),
            None => digits_val(v@.subrange(i as int, j as int)) > u64::MAX,
        },
{
    let mut acc: u64 = 0;
    let mut k: usize = i;
    proof {
        assert(v@.subrange(i as int, i as int) =~= Seq::<char>::empty());
    }
    while k < j
        invariant
            i <= k <= j <= v@.len(),
            forall|m: int| i <= m < j ==> is_digit(#[trigger] v@[m]),
            acc == digits_val(v@.subrange(i as int, k as int)),
        decreases j - k,
    {
        let d = digit_value(v[k]);
        proof {
            lemma_digits_val_push(v@.subrange(i as int, k as int), v@[k as int]);
            assert(v@.subrange(i as int, k as int + 1) =~= v@.subrange(
                i as int,
                k as int,
            ).push(v@[k as int]));
            assert(all_digits(v@.subrange(i as int, k as int + 1)));
            lemma_digits_val_bounds(v@.subrange(i as int, k as int + 1));
        }
        let m = match acc.checked_mul(10) {
            Some(m) => m,
            None => {
                proof {
                    lemma_digits_val_grows(v@, i as int, k as int + 1, j as int);
                }
                return None;
            },
        };
        let a = match m.checked_add(d as u64) {
            Some(a) => a,
            None => {
                proof {
                    lemma_digits_val_grows(v@, i as int, k as int + 1, j as int);
                }
                return None;
            },
        };
        acc = a;
        k = k + 1;
    }
    proof {
        assert(v@.subrange(i as int, k as int) =~= v@.subrange(i as int, j as int));
    }
    Some(acc)
}

/// A digit string's value only grows as the string is extended.
pub proof fn lemma_digits_val_grows(s: Seq<char>, i: int, k: int, j: int)
    requires
        0 <= i <= k <= j <= s.len(),
        forall|m: int| i <= m < j ==> is_digit(#[trigger] s[m]),
    ensures
        digits_val(s.subrange(i, j)) >= digits_val(s.subrange(i, k)),
    decreases j - k,
{
    if k < j {
        lemma_digits_val_grows(s, i, k + 1, j);
        lemma_digits_val_push(s.subrange(i, k), s[k]);
        assert(s.subrange(i, k + 1) =~= s.subrange(i, k).push(s[k]));
        assert(all_digits(s.subrange(i, k)));
        lemma_digits_val_bounds(s.subrange(i, k));
        assert(is_digit(s[k]));
    }
}

} // verus!
