//! Characters and whitespace tokens: reading a string as characters,
//! splitting on whitespace, and building strings back up.

use vstd::prelude::*;
use vstd::string::StrSliceExecFns;

verus! {

/// Relies on std's `String::push`: appends one character at the end.
pub assume_specification[ String::push ](s: &mut String, c: char)
    ensures
        final(s)@ == old(s)@.push(c),
;

/// `c` is one of the ASCII whitespace characters the tokenizer splits on.
pub open spec fn is_ws(c: char) -> bool {
    c == ' ' || c == '\t' || c == '\n' || c == '\r'
}

/// Length of the maximal non-whitespace prefix of `s`.
pub open spec fn token_len(s: Seq<char>) -> nat
    decreases s.len(),
{
    if s.len() == 0 || is_ws(s[0]) {
        0
    } else {
        1 + token_len(s.skip(1))
    }
}

/// The whitespace-separated tokens of `s`, in order.
pub open spec fn tokenize(s: Seq<char>) -> Seq<Seq<char>>
    decreases s.len(),
    via tokenize_dec
{
    if s.len() == 0 {
        Seq::empty()
    } else if is_ws(s[0]) {
        tokenize(s.skip(1))
    } else {
        seq![s.subrange(0, token_len(s) as int)] + tokenize(s.skip(token_len(s) as int))
    }
}

#[via_fn]
proof fn tokenize_dec(s: Seq<char>) {
    if s.len() > 0 && !is_ws(s[0]) {
        lemma_token_prefix(s);
    }
}

/// The maximal token prefix: everything before it is non-whitespace, and it
/// stops at the end or at a whitespace character.
pub proof fn lemma_token_prefix(s: Seq<char>)
    ensures
        token_len(s) <= s.len(),
        forall|i: int| 0 <= i < token_len(s) ==> !is_ws(#[trigger] s[i]),
        token_len(s) < s.len() ==> is_ws(s[token_len(s) as int]),
    decreases s.len(),
{
    if s.len() == 0 || is_ws(s[0]) {
    } else {
        lemma_token_prefix(s.skip(1));
        let e = token_len(s) as int;
        assert forall|i: int| 0 <= i < e implies !is_ws(#[trigger] s[i]) by {
            if i >= 1 {
                assert(s.skip(1)[i - 1] == s[i]);
            }
        }
        if e < s.len() {
            assert(s.skip(1)[e - 1] == s[e]);
        }
    }
}

/// Any cut that is non-whitespace throughout and stops at the end or at
/// whitespace is the maximal token prefix.
pub proof fn lemma_token_prefix_unique(s: Seq<char>, j: int)
    requires
        0 <= j <= s.len(),
        forall|i: int| 0 <= i < j ==> !is_ws(#[trigger] s[i]),
        j < s.len() ==> is_ws(s[j]),
    ensures
        j == token_len(s),
{
    lemma_token_prefix(s);
    let e = token_len(s) as int;
    if j < e {
        assert(!is_ws(s[j]));
    } else if e < j {
        assert(!is_ws(s[e]));
    }
}

/// Position of the first occurrence of `c` in `s`, if any.
pub open spec fn find_char(s: Seq<char>, c: char) -> Option<nat>
    decreases s.len(),
{
    if s.len() == 0 {
        Option::None
    } else if s[0] == c {
        Option::Some(0)
    } else {
        match find_char(s.skip(1), c) {
            Option::Some(i) => Option::Some(i + 1),
            Option::None => Option::None,
        }
    }
}

/// What finding a character means: the position holds `c` and nothing
/// before it does; `None` means `c` is absent.
pub proof fn lemma_find_char(s: Seq<char>, c: char)
    ensures
        match find_char(s, c) {
            Option::Some(i) => i < s.len() && s[i as int] == c && forall|k: int|
                0 <= k < i ==> s[k] != c,
            Option::None => forall|k: int| 0 <= k < s.len() ==> s[k] != c,
        },
    decreases s.len(),
{
    if s.len() > 0 && s[0] != c {
        lemma_find_char(s.skip(1), c);
        match find_char(s.skip(1), c) {
            Option::Some(i) => {
                assert(s.skip(1)[i as int] == s[i as int + 1]);
                assert forall|k: int| 0 <= k < i + 1 implies s[k] != c by {
                    if k >= 1 {
                        assert(s.skip(1)[k - 1] == s[k]);
                    }
                }
            },
            Option::None => {
                assert forall|k: int| 0 <= k < s.len() implies s[k] != c by {
                    if k >= 1 {
                        assert(s.skip(1)[k - 1] == s[k]);
                    }
                }
            },
        }
    }
}

/// Any position holding `c` with none before it is where `c` is first
/// found.
pub proof fn lemma_find_char_unique(s: Seq<char>, c: char, i: int)
    requires
        0 <= i < s.len(),
        s[i] == c,
        forall|k: int| 0 <= k < i ==> s[k] != c,
    ensures
        find_char(s, c) == Option::Some(i as nat),
{
    lemma_find_char(s, c);
    match find_char(s, c) {
        Option::Some(f) => {
            if f < i {
                assert(s[f as int] != c);
            } else if i < f {
                assert(s[i] != c);
            }
        },
        Option::None => {
            assert(s[i] != c);
        },
    }
}

/// Find the first occurrence of `c` in `v`, as executable code.
pub fn find_char_in(v: &Vec<char>, c: char) -> (r: Option<usize>)
    ensures
        match r {
            Some(i) => i < v@.len() && v@[i as int] == c && find_char(v@, c) == Option::Some(
                i as nat,
            ),
            None => find_char(v@, c) is None,
        },
{
    let mut i: usize = 0;
    while i < v.len()
        invariant
            i <= v@.len(),
            forall|k: int| 0 <= k < i ==> v@[k] != c,
        decreases v@.len() - i,
    {
        if v[i] == c {
            proof {
                lemma_find_char_unique(v@, c, i as int);
            }
            return Some(i);
        }
        i = i + 1;
    }
    proof {
        lemma_find_char(v@, c);
        if find_char(v@, c) is Some {
            let f = find_char(v@, c)->Some_0;
            assert(v@[f as int] == c);
        }
    }
    None
}

/// A copy of `v[i..j]`.
pub fn subvec(v: &Vec<char>, i: usize, j: usize) -> (r: Vec<char>)
    requires
        i <= j <= v@.len(),
    ensures
        r@ == v@.subrange(i as int, j as int),
{
    let mut r: Vec<char> = Vec::new();
    let mut k: usize = i;
    proof {
        assert(r@ =~= v@.subrange(i as int, i as int));
    }
    while k < j
        invariant
            i <= k <= j <= v@.len(),
            r@ == v@.subrange(i as int, k as int),
        decreases j - k,
    {
        r.push(v[k]);
        proof {
            assert(v@.subrange(i as int, k + 1) =~= v@.subrange(i as int, k as int).push(
                v@[k as int],
            ));
        }
        k = k + 1;
    }
    r
}

/// Whether `c` is tokenizer whitespace, as executable code.
pub fn is_ws_char(c: char) -> (b: bool)
    ensures
        b == is_ws(c),
{
    c == ' ' || c == '\t' || c == '\n' || c == '\r'
}

/// The characters of `s`, in order.
pub fn str_chars(s: &str) -> (v: Vec<char>)
    ensures
        v@ == s@,
{
    let n = s.unicode_len();
    let mut v: Vec<char> = Vec::new();
    let mut i: usize = 0;
    while i < n
        invariant
            n == s@.len(),
            i <= n,
            v@ == s@.subrange(0, i as int),
        decreases n - i,
    {
        v.push(s.get_char(i));
        proof {
            assert(v@ =~= s@.subrange(0, i + 1));
        }
        i = i + 1;
    }
    proof {
        assert(s@.subrange(0, n as int) =~= s@);
    }
    v
}

/// A string holding exactly the characters of `v`.
pub fn string_of(v: &Vec<char>) -> (s: String)
    ensures
        s@ == v@,
{
    let mut s = String::new();
    let mut i: usize = 0;
    while i < v.len()
        invariant
            i <= v@.len(),
            s@ == v@.subrange(0, i as int),
        decreases v@.len() - i,
    {
        s.push(v[i]);
        proof {
            assert(s@ =~= v@.subrange(0, i + 1));
        }
        i = i + 1;
    }
    proof {
        assert(v@.subrange(0, v@.len() as int) =~= v@);
    }
    s
}

/// The concatenation of two strings.
pub fn concat_str(a: &str, b: &str) -> (s: String)
    ensures
        s@ == a@ + b@,
{
    let mut s = a.to_owned();
    let n = b.unicode_len();
    let mut i: usize = 0;
    while i < n
        invariant
            n == b@.len(),
            i <= n,
            s@ == a@ + b@.subrange(0, i as int),
        decreases n - i,
    {
        s.push(b.get_char(i));
        proof {
            assert(a@ + b@.subrange(0, i + 1) =~= (a@ + b@.subrange(0, i as int)).push(
                b@[i as int],
            ));
        }
        i = i + 1;
    }
    proof {
        assert(a@ + b@.subrange(0, n as int) =~= a@ + b@);
    }
    s
}

/// Split `v` into its whitespace-separated tokens.
pub fn split_ws(v: &Vec<char>) -> (r: Vec<Vec<char>>)
    ensures
        r.deep_view() == tokenize(v@),
{
    let mut r: Vec<Vec<char>> = Vec::new();
    let mut i: usize = 0;
    proof {
        assert(v@.skip(0) =~= v@);
        assert(r.deep_view() + tokenize(v@) =~~= tokenize(v@));
    }
    while i < v.len()
        invariant
            i <= v@.len(),
            tokenize(v@) =~~= r.deep_view() + tokenize(v@.skip(i as int)),
        decreases v@.len() - i,
    {
        if is_ws_char(v[i]) {
            proof {
                assert(v@.skip(i as int).skip(1) =~= v@.skip(i + 1));
            }
            i = i + 1;
        } else {
            let ghost rest = v@.skip(i as int);
            let mut j: usize = i + 1;
            while j < v.len() && !is_ws_char(v[j])
                invariant
                    i < j <= v@.len(),
                    forall|k: int| i <= k < j ==> !is_ws(#[trigger] v@[k]),
                    !is_ws(v@[i as int]),
                decreases v@.len() - j,
            {
                j = j + 1;
            }
            proof {
                assert(forall|k: int| 0 <= k < j - i ==> rest[k] == #[trigger] v@[k + i]);
                assert(j < v@.len() ==> rest[j - i] == v@[j as int]);
                lemma_token_prefix_unique(rest, j - i);
            }
            let mut tok: Vec<char> = Vec::new();
            let mut k: usize = i;
            while k < j
                invariant
                    i <= k <= j <= v@.len(),
                    tok@ == v@.subrange(i as int, k as int),
                decreases j - k,
            {
                tok.push(v[k]);
                proof {
                    assert(v@.subrange(i as int, k + 1) =~= v@.subrange(i as int, k as int).push(
                        v@[k as int],
                    ));
                }
                k = k + 1;
            }
            proof {
                assert(tok@ =~= rest.subrange(0, token_len(rest) as int));
                assert(rest.skip(token_len(rest) as int) =~= v@.skip(j as int));
                assert(tokenize(rest) =~~= seq![tok@] + tokenize(v@.skip(j as int)));
                assert((r.deep_view().push(tok@)) =~~= r.deep_view() + seq![tok@]);
                assert(r.deep_view() + tokenize(v@.skip(i as int)) =~~= (r.deep_view() + seq![
                    tok@,
                ]) + tokenize(v@.skip(j as int)));
            }
            r.push(tok);
            i = j;
        }
    }
    proof {
        assert(v@.skip(v@.len() as int) =~= Seq::<char>::empty());
        assert(tokenize(Seq::<char>::empty()) =~~= Seq::<Seq<char>>::empty());
        assert(r.deep_view() + Seq::<Seq<char>>::empty() =~~= r.deep_view());
        assert(r.deep_view() =~~= tokenize(v@));
    }
    r
}

} // verus!
