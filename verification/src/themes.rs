//! The theme-palette store: fixed twenty-byte records of five colors each,
//! decoded from big-endian words, with indexed and random lookup; and
//! textual theme references (`"path"` or `"path:index"`).

use vstd::prelude::*;
use crate::color::Color;
use crate::digits::{digits_val, is_digit};
use crate::error::Error;
use crate::rng::{stream, Rng};
use crate::text::{concat_str, str_chars, string_of};

verus! {

/// Bytes per theme record: five colors, four bytes each.
pub const THEME_SIZE: usize = 20;

/// A loaded theme store: the raw bytes of a theme file, a whole number of
/// records. The caller that owns the file reads it; the store never
/// touches the disk.
#[derive(Clone, Debug, PartialEq, Eq)]
pub struct Themes {
    pub data: Vec<u8>,
}

/// The store holds a whole number of records.
pub open spec fn themes_wf(t: Themes) -> bool {
    t.data@.len() % 20 == 0
}

/// The big-endian word of four bytes.
pub open spec fn be_word(a: u8, b: u8, c: u8, d: u8) -> u32 {
    (a * 0x100_0000 + b * 0x1_0000 + c * 0x100 + d) as u32
}

/// The `i`-th color of record `idx`: three bytes of the record's `i`-th
/// word, the fourth byte being padding.
pub open spec fn color_at(data: Seq<u8>, idx: int, i: int) -> Color {
    Color { r: data[idx * 20 + i * 4], g: data[idx * 20 + i * 4 + 1], b: data[idx * 20 + i * 4 + 2] }
}

/// Relies on byteorder's `BigEndian::read_u32`: the big-endian word in the
/// four bytes of `b` starting at `off`.
#[verifier::external_body]
fn read_u32_be_at(b: &Vec<u8>, off: usize) -> (r: u32)
    requires
        off + 4 <= b@.len(),
    ensures
        r == be_word(b@[off as int], b@[off as int + 1], b@[off as int + 2], b@[off as int + 3]),
{
    <byteorder::BigEndian as byteorder::ByteOrder>::read_u32(&b[off..off + 4])
}

impl Themes {
    /// Build a store from a theme file's bytes. `Ok` exactly when the
    /// size is a whole number of records.
    pub fn from_bytes(data: Vec<u8>) -> (r: Result<Themes, Error>)
        ensures
            match r {
                Ok(t) => t.data@ == data@ && themes_wf(t),
                Err(e) => e == Error::Format && data@.len() % 20 != 0,
            },
    {
        if data.len() % THEME_SIZE == 0 {
            Ok(Themes { data })
        } else {
            Err(Error::Format)
        }
    }

    /// How many theme records the store holds.
    pub fn len(&self) -> (n: usize)
        ensures
            n == self.data@.len() / 20,
    {
        self.data.len() / THEME_SIZE
    }

    pub fn is_empty(&self) -> (b: bool)
        ensures
            b == (self.data@.len() / 20 == 0),
    {
        self.len() == 0
    }

    /// The five colors of record `idx`.
    pub fn get(&self, idx: usize) -> (colors: Vec<Color>)
        requires
            themes_wf(*self),
            idx < self.data@.len() / 20,
        ensures
            colors@.len() == 5,
            forall|i: int| 0 <= i < 5 ==> #[trigger] colors@[i] == color_at(
                self.data@,
                idx as int,
                i,
            ),
    {
        let total = self.data.len();
        proof {
            assert(idx * 20 + 20 <= total) by (nonlinear_arith)
                requires
                    idx < total / 20,
                    total % 20 == 0,
            ;
        }
        let off = idx * THEME_SIZE;
        let mut colors: Vec<Color> = Vec::new();
        let mut i: usize = 0;
        while i < 5
            invariant
                themes_wf(*self),
                idx < self.data@.len() / 20,
                off == idx * 20,
                idx * 20 + 20 <= self.data@.len(),
                self.data@.len() <= usize::MAX,
                i <= 5,
                colors@.len() == i,
                forall|k: int| 0 <= k < i ==> #[trigger] colors@[k] == color_at(
                    self.data@,
                    idx as int,
                    k,
                ),
            decreases 5 - i,
        {
            let b = off + i * 4;
            let w = read_u32_be_at(&self.data, b);
            let c = Color::from_rgb_u32(w >> 8);
            proof {
                let a0 = self.data@[b as int];
                let a1 = self.data@[b as int + 1];
                let a2 = self.data@[b as int + 2];
                let a3 = self.data@[b as int + 3];
                assert(w == be_word(a0, a1, a2, a3));
                let b0 = a0 as u32;
                let b1 = a1 as u32;
                let b2 = a2 as u32;
                let b3 = a3 as u32;
                assert(w == b0 * 0x100_0000 + b1 * 0x1_0000 + b2 * 0x100 + b3);
                assert(((w >> 8) >> 16) & 0xff == b0 && ((w >> 8) >> 8) & 0xff == b1 && (w >> 8)
                    & 0xff == b2) by (bit_vector)
                    requires
                        w == b0 * 0x100_0000 + b1 * 0x1_0000 + b2 * 0x100 + b3,
                        b0 <= 0xff,
                        b1 <= 0xff,
                        b2 <= 0xff,
                        b3 <= 0xff,
                ;
                assert(c == color_at(self.data@, idx as int, i as int));
            }
            colors.push(c);
            i = i + 1;
        }
        colors
    }

    /// Draw a uniform record index and return it with its palette. An
    /// empty store is a range failure; nothing is drawn then.
    pub fn pick(&self, rng: &mut Rng) -> (r: Result<(usize, Vec<Color>), Error>)
        requires
            themes_wf(*self),
            crate::rng::rng_wf(*old(rng)),
        ensures
            crate::rng::rng_wf(*final(rng)),
            final(rng).seed == old(rng).seed,
            match r {
                Ok((idx, colors)) => {
                    &&& self.data@.len() / 20 > 0
                    &&& final(rng).drawn@ == old(rng).drawn@ + 1
                    &&& idx == stream(old(rng).seed@, old(rng).drawn@) % ((self.data@.len()
                        / 20) as u64)
                    &&& colors@.len() == 5
                    &&& forall|i: int| 0 <= i < 5 ==> #[trigger] colors@[i] == color_at(
                        self.data@,
                        idx as int,
                        i,
                    )
                },
                Err(e) => {
                    &&& e == Error::Range
                    &&& self.data@.len() / 20 == 0
                    &&& *final(rng) == *old(rng)
                },
            },
    {
        let n = self.len();
        if n == 0 {
            return Err(Error::Range);
        }
        let ix = rng.next_index(n as u64);
        let idx = ix as usize;
        Ok((idx, self.get(idx)))
    }
}

/// The digits run at the very end of `s`.
pub open spec fn digits_suffix_len(s: Seq<char>) -> nat
    decreases s.len(),
{
    if s.len() > 0 && is_digit(s.last()) {
        1 + digits_suffix_len(s.drop_last())
    } else {
        0
    }
}

/// Where a theme reference splits: the position of the colon just before
/// a nonempty all-digit tail, if the text ends that way.
pub open spec fn theme_split(s: Seq<char>) -> Option<int> {
    let d = digits_suffix_len(s) as int;
    if d >= 1 && d < s.len() && s[s.len() - d - 1] == ':' {
        Option::Some(s.len() - d - 1)
    } else {
        Option::None
    }
}

/// The index denoted by a split reference: its digit tail as a number.
pub open spec fn theme_index_val(s: Seq<char>) -> int {
    digits_val(s.skip(s.len() - digits_suffix_len(s)))
}

/// A reference to a theme file, optionally pinning one record index.
#[derive(Clone, Debug, PartialEq, Eq)]
pub struct ThemeRef {
    pub path: String,
    pub idx: Option<usize>,
}

impl ThemeRef {
    /// A reference to a file with no pinned index.
    pub fn from_path(path: &str) -> (r: Self)
        ensures
            r.path@ == path@,
            r.idx is None,
    {
        Self { path: path.to_owned(), idx: None }
    }

    pub fn path(&self) -> (p: &str)
        ensures
            p@ == self.path@,
    {
        self.path.as_str()
    }

    pub fn idx(&self) -> (i: Option<usize>)
        ensures
            i == self.idx,
    {
        self.idx
    }

    /// Parse `"path"` or `"path:index"`: the index is the all-digit tail
    /// after the last colon, when there is one. `Ok` unless the index
    /// does not fit `usize`.
    pub fn from_str(s: &str) -> (r: Result<ThemeRef, Error>)
        ensures
            match r {
                Ok(tr) => match theme_split(s@) {
                    Option::Some(cut) => {
                        &&& tr.path@ == s@.subrange(0, cut)
                        &&& tr.idx is Some
                        &&& tr.idx->0 == theme_index_val(s@)
                    },
                    Option::None => tr.path@ == s@ && tr.idx is None,
                },
                Err(e) => {
                    &&& e == Error::Parse
                    &&& theme_split(s@) is Some
                    &&& theme_index_val(s@) > usize::MAX
                },
            },
    {
        let v = str_chars(s);
        let mut d: usize = 0;
        while d < v.len() && is_digit_exec(v[v.len() - 1 - d])
            invariant
                d <= v@.len(),
                forall|k: int| 0 <= k < d ==> is_digit(#[trigger] v@[v@.len() - 1 - k]),
            decreases v@.len() - d,
        {
            d = d + 1;
        }
        proof {
            lemma_digits_suffix_unique(v@, d as nat);
        }
        if d >= 1 && d < v.len() && v[v.len() - d - 1] == ':' {
            let cut = v.len() - d - 1;
            proof {
                lemma_suffix_digits_map(v@, d as int);
            }
            let idx = match crate::digits::digits_to_u64(&v, cut + 1, v.len()) {
                Some(n) => n,
                None => {
                    proof {
                        assert(v@.subrange(cut + 1, v@.len() as int) =~= v@.skip(
                            v@.len() - d,
                        ));
                    }
                    return Err(Error::Parse);
                },
            };
            proof {
                assert(v@.subrange(cut + 1, v@.len() as int) =~= v@.skip(v@.len() - d));
            }
            if idx > usize::MAX as u64 {
                return Err(Error::Parse);
            }
            let prefix = crate::text::subvec(&v, 0, cut);
            Ok(ThemeRef { path: string_of(&prefix), idx: Some(idx as usize) })
        } else {
            Ok(ThemeRef { path: string_of(&v), idx: None })
        }
    }

    /// Parse a reference, reporting failure as the message
    /// `invalid theme: ` followed by the input.
    pub fn from_arg(s: &str) -> (r: Result<ThemeRef, String>)
        ensures
            match r {
                Ok(tr) => match theme_split(s@) {
                    Option::Some(cut) => {
                        &&& tr.path@ == s@.subrange(0, cut)
                        &&& tr.idx is Some
                        &&& tr.idx->0 == theme_index_val(s@)
                    },
                    Option::None => tr.path@ == s@ && tr.idx is None,
                },
                Err(m) => {
                    &&& m@ == "invalid theme: "@ + s@
                    &&& theme_split(s@) is Some
                    &&& theme_index_val(s@) > usize::MAX
                },
            },
    {
        match ThemeRef::from_str(s) {
            Ok(tr) => Ok(tr),
            Err(_) => Err(concat_str("invalid theme: ", s)),
        }
    }

    /// The textual form: the path, with a pinned index in brackets.
    pub fn to_display(&self) -> (r: String)
        ensures
            match self.idx {
                Some(i) => r@ == self.path@ + seq!['['] + crate::digits::dec_digits(i as nat)
                    + seq![']'],
                None => r@ == self.path@,
            },
    {
        match self.idx {
            Some(i) => {
                let mut v = str_chars(self.path.as_str());
                v.push('[');
                let mut ds = crate::digits::fmt_u64(i as u64);
                v.append(&mut ds);
                v.push(']');
                proof {
                    assert(v@ =~= self.path@ + seq!['['] + crate::digits::dec_digits(
                        self.idx->0 as nat,
                    ) + seq![']']);
                }
                string_of(&v)
            },
            None => {
                let v = str_chars(self.path.as_str());
                string_of(&v)
            },
        }
    }

    /// Resolve the reference against an opened store: the pinned record,
    /// which must be in range, or a uniformly drawn one.
    pub fn pick(&self, themes: &Themes, rng: &mut Rng) -> (r: Result<(usize, Vec<Color>), Error>)
        requires
            themes_wf(*themes),
            crate::rng::rng_wf(*old(rng)),
        ensures
            crate::rng::rng_wf(*final(rng)),
            final(rng).seed == old(rng).seed,
            match r {
                Ok((idx, colors)) => {
                    &&& match self.idx {
                        Some(fixed) => idx == fixed && *final(rng) == *old(rng),
                        None => {
                            &&& final(rng).drawn@ == old(rng).drawn@ + 1
                            &&& idx == stream(old(rng).seed@, old(rng).drawn@) % ((
                            themes.data@.len() / 20) as u64)
                        },
                    }
                    &&& idx < themes.data@.len() / 20
                    &&& colors@.len() == 5
                    &&& forall|i: int| 0 <= i < 5 ==> #[trigger] colors@[i] == color_at(
                        themes.data@,
                        idx as int,
                        i,
                    )
                },
                Err(e) => {
                    &&& e == Error::Range
                    &&& *final(rng) == *old(rng)
                    &&& match self.idx {
                        Some(fixed) => fixed >= themes.data@.len() / 20,
                        None => themes.data@.len() / 20 == 0,
                    }
                },
            },
    {
        match self.idx {
            Some(fixed) => {
                if fixed < themes.len() {
                    Ok((fixed, themes.get(fixed)))
                } else {
                    Err(Error::Range)
                }
            },
            None => themes.pick(rng),
        }
    }
}

/// Whether `c` is a decimal digit (forwarding the digits module's test).
fn is_digit_exec(c: char) -> (b: bool)
    ensures
        b == is_digit(c),
{
    crate::digits::is_digit_char(c)
}

/// A maximal digit run at the end is the digit suffix.
proof fn lemma_digits_suffix_unique(s: Seq<char>, d: nat)
    requires
        d <= s.len(),
        forall|k: int| 0 <= k < d ==> is_digit(#[trigger] s[s.len() - 1 - k]),
        d < s.len() ==> !is_digit(s[s.len() - 1 - d]),
    ensures
        d == digits_suffix_len(s),
    decreases s.len(),
{
    if s.len() > 0 && is_digit(s.last()) {
        assert(d > 0) by {
            if d == 0 {
                assert(!is_digit(s[s.len() - 1]));
            }
        }
        let t = s.drop_last();
        assert forall|k: int| 0 <= k < d - 1 implies is_digit(#[trigger] t[t.len() - 1 - k]) by {
            assert(t[t.len() - 1 - k] == s[s.len() - 1 - (k + 1)]);
        }
        if d - 1 < t.len() {
            assert(t[t.len() - 1 - (d - 1)] == s[s.len() - 1 - d]);
        }
        lemma_digits_suffix_unique(t, (d - 1) as nat);
    } else {
        if d > 0 {
            assert(is_digit(s[s.len() - 1 - 0]));
        }
    }
}

/// The digit suffix, read forward: every character from the cut is a
/// digit.
proof fn lemma_suffix_digits_map(s: Seq<char>, d: int)
    requires
        0 <= d <= s.len(),
        forall|k: int| 0 <= k < d ==> is_digit(#[trigger] s[s.len() - 1 - k]),
    ensures
        forall|k: int| s.len() - d <= k < s.len() ==> is_digit(#[trigger] s[k]),
{
    assert forall|k: int| s.len() - d <= k < s.len() implies is_digit(#[trigger] s[k]) by {
        assert(s[k] == s[s.len() - 1 - (s.len() - 1 - k)]);
    }
}

} // verus!
