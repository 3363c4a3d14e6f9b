//! The path model: an ordered sequence of move/line commands, a restricted
//! textual mini-language (`"M x y L x y ..."`), bounding boxes, and
//! coordinate transforms.

use vstd::prelude::*;
use crate::error::Error;
use crate::num::{abs_int, fmt_micros, fmt_micros_chars, parse_micros, parse_micros_chars,
    MAX_MICROS};
use crate::point::Point;
use crate::text::{concat_str, is_ws, split_ws, str_chars, string_of, tokenize};

verus! {

/// One path command: move without drawing, or draw a straight segment.
#[derive(Clone, Copy, Debug, PartialEq, Eq, Structural)]
pub enum Cmd {
    MoveTo(Point),
    LineTo(Point),
}

impl Cmd {
    /// The command's target point.
    pub fn point(&self) -> (p: &Point)
        ensures
            *p == spec_cmd_point(*self),
    {
        match self {
            Cmd::MoveTo(p) => p,
            Cmd::LineTo(p) => p,
        }
    }
}

/// The command's target point.
pub open spec fn spec_cmd_point(c: Cmd) -> Point {
    match c {
        Cmd::MoveTo(p) => p,
        Cmd::LineTo(p) => p,
    }
}

/// An ordered sequence of commands. A non-empty path conventionally begins
/// with a move; only producers enforce that.
#[derive(Clone, Debug, PartialEq, Eq)]
pub struct Path {
    pub cmds: Vec<Cmd>,
}

/// The mathematical shape of one command: whether it moves, and the target
/// coordinates as unbounded integers (micros).
pub open spec fn cmd_model(c: Cmd) -> (bool, int, int) {
    (c is MoveTo, spec_cmd_point(c).x as int, spec_cmd_point(c).y as int)
}

/// The mathematical shape of a command sequence.
pub open spec fn path_model(cs: Seq<Cmd>) -> Seq<(bool, int, int)> {
    cs.map_values(|c: Cmd| cmd_model(c))
}

/// Every coordinate of the path stays within the parseable magnitude.
pub open spec fn path_wf(cs: Seq<Cmd>) -> bool {
    forall|i: int|
        0 <= i < cs.len() ==> abs_int(spec_cmd_point(#[trigger] cs[i]).x as int) <= MAX_MICROS
            && abs_int(spec_cmd_point(cs[i]).y as int) <= MAX_MICROS
}

/// The textual tokens of a command sequence: for each command its letter,
/// then its two coordinates.
pub open spec fn path_tokens(ms: Seq<(bool, int, int)>) -> Seq<Seq<char>>
    decreases ms.len(),
{
    if ms.len() == 0 {
        Seq::empty()
    } else {
        let m = ms[0];
        let letter: Seq<char> = if m.0 {
            seq!['M']
        } else {
            seq!['L']
        };
        seq![letter, fmt_micros(m.1), fmt_micros(m.2)] + path_tokens(ms.skip(1))
    }
}

/// Tokens joined with single spaces.
pub open spec fn join_sp(ts: Seq<Seq<char>>) -> Seq<char>
    decreases ts.len(),
{
    if ts.len() == 0 {
        Seq::empty()
    } else if ts.len() == 1 {
        ts[0]
    } else {
        ts[0] + seq![' '] + join_sp(ts.skip(1))
    }
}

/// The textual form of a command sequence.
pub open spec fn fmt_path(ms: Seq<(bool, int, int)>) -> Seq<char> {
    join_sp(path_tokens(ms))
}

/// Commands read off a token stream: triples of a letter (`M` or `L`) and
/// two decimals, until the tokens run out.
pub open spec fn parse_path_tokens(ts: Seq<Seq<char>>) -> Option<Seq<(bool, int, int)>>
    decreases ts.len(),
{
    if ts.len() == 0 {
        Option::Some(Seq::empty())
    } else if ts.len() < 3 {
        Option::None
    } else if ts[0] != seq!['M'] && ts[0] != seq!['L'] {
        Option::None
    } else {
        match (parse_micros(ts[1]), parse_micros(ts[2])) {
            (Option::Some(x), Option::Some(y)) => match parse_path_tokens(ts.skip(3)) {
                Option::Some(rest) => Option::Some(
                    seq![(ts[0] == seq!['M'], x, y)] + rest,
                ),
                Option::None => Option::None,
            },
            _ => Option::None,
        }
    }
}

/// The command sequence denoted by a path string.
pub open spec fn parse_path(s: Seq<char>) -> Option<Seq<(bool, int, int)>> {
    parse_path_tokens(tokenize(s))
}

/// Every coordinate of a command sequence stays within the representable
/// cap.
pub open spec fn within_cap(ms: Seq<(bool, int, int)>) -> bool {
    forall|i: int|
        0 <= i < ms.len() ==> abs_int((#[trigger] ms[i]).1) <= MAX_MICROS && abs_int(ms[i].2)
            <= MAX_MICROS
}

/// The strings the path parser accepts: well-formed token triples with
/// every coordinate within the cap.
pub open spec fn path_accepted(s: Seq<char>) -> bool {
    match parse_path(s) {
        Option::Some(ms) => within_cap(ms),
        Option::None => false,
    }
}

/// A coordinate token the parser takes: a decimal within the cap.
pub open spec fn coord_ok(t: Seq<char>) -> bool {
    match parse_micros(t) {
        Option::Some(v) => abs_int(v) <= MAX_MICROS,
        Option::None => false,
    }
}

/// Why a path string was refused, identifying the offending token.
#[derive(Clone, Debug, PartialEq, Eq)]
pub enum PathError {
    /// A command token other than `M` or `L`; the token is carried.
    UnknownCommand(String),
    /// A command with no x coordinate after it.
    NoX,
    /// A command with no y coordinate after it.
    NoY,
    /// A coordinate token that is not a decimal within the cap; the
    /// token is carried.
    Coordinate(String),
}

/// The kind of the first fault in a token stream.
#[derive(Clone, Copy, Debug, PartialEq, Eq, Structural)]
pub enum FaultKind {
    UnknownCommand,
    NoX,
    NoY,
    Coordinate,
}

/// The first fault of a token stream, in the order the parser meets
/// them: a missing x, a bad x, a missing y, a bad y, then an unknown
/// command; `None` when the stream is accepted. The second component is
/// the offending token (empty for a missing coordinate).
pub open spec fn path_fault(ts: Seq<Seq<char>>) -> Option<(FaultKind, Seq<char>)>
    decreases ts.len(),
{
    if ts.len() == 0 {
        Option::None
    } else if ts.len() == 1 {
        Option::Some((FaultKind::NoX, Seq::empty()))
    } else if !coord_ok(ts[1]) {
        Option::Some((FaultKind::Coordinate, ts[1]))
    } else if ts.len() == 2 {
        Option::Some((FaultKind::NoY, Seq::empty()))
    } else if !coord_ok(ts[2]) {
        Option::Some((FaultKind::Coordinate, ts[2]))
    } else if ts[0] != seq!['M'] && ts[0] != seq!['L'] {
        Option::Some((FaultKind::UnknownCommand, ts[0]))
    } else {
        path_fault(ts.skip(3))
    }
}

/// A token stream is fault-free exactly when it parses with every
/// coordinate within the cap.
pub proof fn lemma_fault_accepted(ts: Seq<Seq<char>>)
    ensures
        (path_fault(ts) is None) <==> (match parse_path_tokens(ts) {
            Option::Some(ms) => within_cap(ms),
            Option::None => false,
        }),
    decreases ts.len(),
{
    if ts.len() == 0 {
        assert(parse_path_tokens(ts) == Option::Some(Seq::<(bool, int, int)>::empty()));
        assert(within_cap(Seq::<(bool, int, int)>::empty()));
    } else if ts.len() == 1 || ts.len() == 2 {
    } else if !coord_ok(ts[1]) {
        match parse_path_tokens(ts) {
            Option::Some(ms) => {
                let v = parse_micros(ts[1])->Some_0;
                assert(ms == seq![(ts[0] == seq!['M'], v, parse_micros(ts[2])->Some_0)]
                    + parse_path_tokens(ts.skip(3))->Some_0);
                assert(ms[0].1 == v);
                assert(abs_int(v) > MAX_MICROS);
                assert(!within_cap(ms));
            },
            Option::None => {},
        }
    } else if !coord_ok(ts[2]) {
        match parse_path_tokens(ts) {
            Option::Some(ms) => {
                let w = parse_micros(ts[2])->Some_0;
                assert(ms == seq![(ts[0] == seq!['M'], parse_micros(ts[1])->Some_0, w)]
                    + parse_path_tokens(ts.skip(3))->Some_0);
                assert(ms[0].2 == w);
                assert(abs_int(w) > MAX_MICROS);
                assert(!within_cap(ms));
            },
            Option::None => {},
        }
    } else if ts[0] != seq!['M'] && ts[0] != seq!['L'] {
        assert(parse_path_tokens(ts) is None);
    } else {
        lemma_fault_accepted(ts.skip(3));
        match parse_path_tokens(ts.skip(3)) {
            Option::Some(rest) => {
                let x = parse_micros(ts[1])->Some_0;
                let y = parse_micros(ts[2])->Some_0;
                let m = (ts[0] == seq!['M'], x, y);
                assert(parse_path_tokens(ts) == Option::Some(seq![m] + rest));
                let ms = seq![m] + rest;
                assert(abs_int(m.1) <= MAX_MICROS && abs_int(m.2) <= MAX_MICROS);
                if within_cap(rest) {
                    assert forall|i: int|
                        0 <= i < ms.len() implies abs_int((#[trigger] ms[i]).1) <= MAX_MICROS
                        && abs_int(ms[i].2) <= MAX_MICROS by {
                        if i > 0 {
                            assert(ms[i] == rest[i - 1]);
                        }
                    }
                }
                if within_cap(ms) {
                    assert forall|i: int|
                        0 <= i < rest.len() implies abs_int((#[trigger] rest[i]).1)
                        <= MAX_MICROS && abs_int(rest[i].2) <= MAX_MICROS by {
                        assert(rest[i] == ms[i + 1]);
                    }
                }
            },
            Option::None => {
                assert(parse_path_tokens(ts) is None);
            },
        }
    }
}

impl PathError {
    /// The failure as the parser's message, naming the offending command
    /// or the missing coordinate.
    pub fn to_message(&self) -> (r: String)
        ensures
            match self {
                PathError::UnknownCommand(t) => r@ == "unknown command: "@ + t@,
                PathError::NoX => r@ == "no x"@,
                PathError::NoY => r@ == "no y"@,
                PathError::Coordinate(t) => r@ == "invalid coordinate: "@ + t@,
            },
    {
        match self {
            PathError::UnknownCommand(t) => concat_str("unknown command: ", t.as_str()),
            PathError::NoX => "no x".to_owned(),
            PathError::NoY => "no y".to_owned(),
            PathError::Coordinate(t) => concat_str("invalid coordinate: ", t.as_str()),
        }
    }
}

impl Path {
    /// The path with no commands.
    pub fn empty() -> (p: Path)
        ensures
            p.cmds@.len() == 0,
    {
        Path { cmds: Vec::new() }
    }

    pub fn len(&self) -> (n: usize)
        ensures
            n == self.cmds@.len(),
    {
        self.cmds.len()
    }

    pub fn is_empty(&self) -> (b: bool)
        ensures
            b == (self.cmds@.len() == 0),
    {
        self.cmds.len() == 0
    }

    /// Parse the path mini-language. `Ok` exactly when the whitespace
    /// tokens form letter-coordinate triples with every coordinate within
    /// [`MAX_MICROS`] — the same strings [`Path::is_valid`] accepts. A
    /// failure names the first fault the parser meets: the missing
    /// coordinate, the bad coordinate token, or the unknown command.
    pub fn from_str(s: &str) -> (r: Result<Path, PathError>)
        ensures
            match r {
                Ok(p) => {
                    &&& parse_path(s@) == Option::Some(path_model(p.cmds@))
                    &&& path_wf(p.cmds@)
                    &&& path_accepted(s@)
                },
                Err(e) => {
                    &&& !path_accepted(s@)
                    &&& match path_fault(tokenize(s@)) {
                        Option::Some(f) => match e {
                            PathError::UnknownCommand(t) => f.0 is UnknownCommand && t@ == f.1,
                            PathError::NoX => f.0 is NoX,
                            PathError::NoY => f.0 is NoY,
                            PathError::Coordinate(t) => f.0 is Coordinate && t@ == f.1,
                        },
                        Option::None => false,
                    }
                },
            },
    {
        let v = str_chars(s);
        let ts = split_ws(&v);
        let ghost all = tokenize(s@);
        let mut cmds: Vec<Cmd> = Vec::new();
        let mut i: usize = 0;
        proof {
            assert(all.skip(0) =~= all);
            assert(path_model(cmds@) =~= Seq::<(bool, int, int)>::empty());
        }
        while i < ts.len()
            invariant
                all == tokenize(s@),
                ts.deep_view() == all,
                i <= ts@.len(),
                i % 3 == 0,
                path_wf(cmds@),
                path_fault(all) == path_fault(all.skip(i as int)),
                parse_path_tokens(all) == (match parse_path_tokens(all.skip(i as int)) {
                    Option::Some(rest) => Option::Some(path_model(cmds@) + rest),
                    Option::None => Option::None::<Seq<(bool, int, int)>>,
                }),
            decreases ts@.len() - i,
        {
            proof {
                assert(all[i as int] == ts@[i as int]@);
                assert(all.skip(i as int).len() == all.len() - i);
                assert(all.skip(i as int)[0] == all[i as int]);
            }
            if i + 1 >= ts.len() {
                proof {
                    assert(all.skip(i as int).len() == 1);
                    assert(path_fault(all.skip(i as int)) == Option::Some(
                        (FaultKind::NoX, Seq::<char>::empty()),
                    ));
                    lemma_fault_accepted(all);
                }
                return Err(PathError::NoX);
            }
            proof {
                assert(all[i + 1] == ts@[i + 1]@);
                assert(all.skip(i as int)[1] == all[i + 1]);
            }
            let x = match parse_micros_chars(&ts[i + 1]) {
                Ok(x) => x,
                Err(_) => {
                    proof {
                        assert(!coord_ok(all.skip(i as int)[1]));
                        assert(path_fault(all.skip(i as int)) == Option::Some(
                            (FaultKind::Coordinate, all[i + 1]),
                        ));
                        lemma_fault_accepted(all);
                    }
                    return Err(PathError::Coordinate(string_of(&ts[i + 1])));
                },
            };
            if i + 2 >= ts.len() {
                proof {
                    assert(all.skip(i as int).len() == 2);
                    assert(coord_ok(all.skip(i as int)[1]));
                    assert(path_fault(all.skip(i as int)) == Option::Some(
                        (FaultKind::NoY, Seq::<char>::empty()),
                    ));
                    lemma_fault_accepted(all);
                }
                return Err(PathError::NoY);
            }
            proof {
                assert(all[i + 2] == ts@[i + 2]@);
                assert(all.skip(i as int)[2] == all[i + 2]);
            }
            let y = match parse_micros_chars(&ts[i + 2]) {
                Ok(y) => y,
                Err(_) => {
                    proof {
                        assert(coord_ok(all.skip(i as int)[1]));
                        assert(!coord_ok(all.skip(i as int)[2]));
                        assert(path_fault(all.skip(i as int)) == Option::Some(
                            (FaultKind::Coordinate, all[i + 2]),
                        ));
                        lemma_fault_accepted(all);
                    }
                    return Err(PathError::Coordinate(string_of(&ts[i + 2])));
                },
            };
            let is_move = if eq_single(&ts[i], 'M') {
                true
            } else if eq_single(&ts[i], 'L') {
                false
            } else {
                proof {
                    assert(coord_ok(all.skip(i as int)[1]));
                    assert(coord_ok(all.skip(i as int)[2]));
                    assert(path_fault(all.skip(i as int)) == Option::Some(
                        (FaultKind::UnknownCommand, all[i as int]),
                    ));
                    lemma_fault_accepted(all);
                }
                return Err(PathError::UnknownCommand(string_of(&ts[i])));
            };
            let pt = Point::from_xy(x, y);
            let c = if is_move {
                Cmd::MoveTo(pt)
            } else {
                Cmd::LineTo(pt)
            };
            let ghost prev = cmds@;
            cmds.push(c);
            proof {
                assert(all.skip(i as int).skip(3) =~= all.skip(i + 3));
                assert(path_model(cmds@) =~= path_model(prev) + seq![cmd_model(c)]);
                assert(cmd_model(c) == (all.skip(i as int)[0] == seq!['M'], x as int, y as int));
                lemma_step(all, i as int, path_model(prev), cmd_model(c));
                assert(coord_ok(all.skip(i as int)[1]));
                assert(coord_ok(all.skip(i as int)[2]));
                assert(path_fault(all.skip(i as int)) == path_fault(all.skip(i + 3)));
                assert(forall|k: int|
                    0 <= k < cmds@.len() - 1 ==> cmds@[k] == #[trigger] prev[k]);
                assert(path_wf(cmds@));
            }
            i = i + 3;
        }
        proof {
            assert(all.skip(i as int).len() == 0);
            assert(parse_path_tokens(all.skip(i as int)) == Option::Some(
                Seq::<(bool, int, int)>::empty(),
            ));
            assert(path_model(cmds@) + Seq::<(bool, int, int)>::empty() =~= path_model(cmds@));
            assert(path_fault(all.skip(i as int)) is None);
            lemma_fault_accepted(all);
        }
        Ok(Path { cmds })
    }

    /// The textual form: commands joined with single spaces.
    pub fn to_display(&self) -> (r: String)
        ensures
            r@ == fmt_path(path_model(self.cmds@)),
    {
        let mut out: Vec<char> = Vec::new();
        let mut i: usize = 0;
        let ghost ms = path_model(self.cmds@);
        while i < self.cmds.len()
            invariant
                ms == path_model(self.cmds@),
                i <= self.cmds@.len(),
                out@ == fmt_path(ms.subrange(0, i as int)),
            decreases self.cmds@.len() - i,
        {
            let c = self.cmds[i];
            if i > 0 {
                out.push(' ');
            }
            match c {
                Cmd::MoveTo(_) => out.push('M'),
                Cmd::LineTo(_) => out.push('L'),
            }
            out.push(' ');
            let p = match c {
                Cmd::MoveTo(p) => p,
                Cmd::LineTo(p) => p,
            };
            let mut xs = fmt_micros_chars(p.x);
            out.append(&mut xs);
            out.push(' ');
            let mut ys = fmt_micros_chars(p.y);
            out.append(&mut ys);
            proof {
                lemma_fmt_path_snoc(ms, i as int);
                assert(ms.subrange(0, i as int + 1).drop_last() =~= ms.subrange(0, i as int));
                assert(ms.subrange(0, i as int + 1).last() == ms[i as int]);
                assert(ms[i as int] == cmd_model(self.cmds@[i as int]));
                assert(out@ =~= fmt_path(ms.subrange(0, i + 1)));
            }
            i = i + 1;
        }
        proof {
            assert(ms.subrange(0, ms.len() as int) =~= ms);
        }
        string_of(&out)
    }
}

/// Whether `v` is exactly the single character `c`.
fn eq_single(v: &Vec<char>, c: char) -> (b: bool)
    ensures
        b == (v@ =~= seq![c]),
{
    if v.len() == 1 && v[0] == c {
        proof {
            assert(v@ =~= seq![c]);
        }
        true
    } else {
        proof {
            if v@ =~= seq![c] {
                assert(v@.len() == 1 && v@[0] == c);
            }
        }
        false
    }
}

/// Consuming one well-formed triple keeps the prefix relation.
proof fn lemma_step(all: Seq<Seq<char>>, i: int, done: Seq<(bool, int, int)>, m: (bool, int, int))
    requires
        0 <= i,
        i + 3 <= all.len(),
        parse_path_tokens(all) == (match parse_path_tokens(all.skip(i)) {
            Option::Some(rest) => Option::Some(done + rest),
            Option::None => Option::None::<Seq<(bool, int, int)>>,
        }),
        all.skip(i)[0] == seq!['M'] || all.skip(i)[0] == seq!['L'],
        parse_micros(all.skip(i)[1]) == Option::Some(m.1),
        parse_micros(all.skip(i)[2]) == Option::Some(m.2),
        m.0 == (all.skip(i)[0] == seq!['M']),
        all.skip(i).skip(3) == all.skip(i + 3),
    ensures
        parse_path_tokens(all) == (match parse_path_tokens(all.skip(i + 3)) {
            Option::Some(rest) => Option::Some((done + seq![m]) + rest),
            Option::None => Option::None::<Seq<(bool, int, int)>>,
        }),
{
    let t = all.skip(i);
    match parse_path_tokens(all.skip(i + 3)) {
        Option::Some(rest) => {
            assert(parse_path_tokens(t) == Option::Some(seq![m] + rest));
            assert(done + (seq![m] + rest) =~= (done + seq![m]) + rest);
        },
        Option::None => {
            assert(parse_path_tokens(t) is None);
        },
    }
}

/// Formatting one more command appends a space and its three tokens
/// (no space when it is the first).
proof fn lemma_fmt_path_snoc(ms: Seq<(bool, int, int)>, i: int)
    requires
        0 <= i < ms.len(),
    ensures
        fmt_path(ms.subrange(0, i + 1)) == if i == 0 {
            fmt_cmd_text(ms[0])
        } else {
            fmt_path(ms.subrange(0, i)) + seq![' '] + fmt_cmd_text(ms[i])
        },
{
    lemma_fmt_path_snoc_general(ms.subrange(0, i + 1));
    assert(ms.subrange(0, i + 1).drop_last() =~= ms.subrange(0, i));
    assert(ms.subrange(0, i + 1).last() == ms[i]);
}

/// The text of one command: its letter, a space, and its two coordinates
/// separated by a space.
pub open spec fn fmt_cmd_text(m: (bool, int, int)) -> Seq<char> {
    let letter: Seq<char> = if m.0 {
        seq!['M']
    } else {
        seq!['L']
    };
    letter + seq![' '] + fmt_micros(m.1) + seq![' '] + fmt_micros(m.2)
}

/// Formatting splits off the last command.
proof fn lemma_fmt_path_snoc_general(ms: Seq<(bool, int, int)>)
    requires
        ms.len() >= 1,
    ensures
        fmt_path(ms) == if ms.len() == 1 {
            fmt_cmd_text(ms[0])
        } else {
            fmt_path(ms.drop_last()) + seq![' '] + fmt_cmd_text(ms.last())
        },
    decreases ms.len(),
{
    if ms.len() == 1 {
        reveal_with_fuel(path_tokens, 3);
        assert(ms.skip(1) =~= Seq::<(bool, int, int)>::empty());
        assert(path_tokens(ms) =~= seq![
            (if ms[0].0 {
                seq!['M']
            } else {
                seq!['L']
            }),
            fmt_micros(ms[0].1),
            fmt_micros(ms[0].2),
        ]);
        lemma_join3(path_tokens(ms));
        assert(ms.skip(1) =~= Seq::<(bool, int, int)>::empty());
    } else {
        lemma_fmt_path_snoc_general(ms.skip(1));
        assert(ms.skip(1).len() >= 1);
        assert(ms.skip(1).drop_last() =~= ms.drop_last().skip(1));
        assert(ms.skip(1).last() == ms.last());
        assert(ms.drop_last()[0] == ms[0]);
        assert(ms.drop_last().len() >= 1);
        lemma_join_head3(ms);
        if ms.len() == 2 {
            assert(fmt_path(ms.drop_last()) == fmt_cmd_text(ms[0])) by {
                lemma_fmt_path_one(ms.drop_last());
            }
            assert(fmt_path(ms) =~= fmt_cmd_text(ms[0]) + seq![' '] + fmt_path(ms.skip(1)));
            assert(fmt_path(ms.skip(1)) == fmt_cmd_text(ms.skip(1)[0])) by {
                lemma_fmt_path_one(ms.skip(1));
            }
            assert(fmt_path(ms) =~= fmt_path(ms.drop_last()) + seq![' '] + fmt_cmd_text(
                ms.last(),
            ));
        } else {
            lemma_join_head3_drop(ms);
            assert(fmt_path(ms) =~= fmt_cmd_text(ms[0]) + seq![' '] + fmt_path(ms.skip(1)));
            assert(fmt_path(ms.drop_last()) =~= fmt_cmd_text(ms[0]) + seq![' '] + fmt_path(
                ms.drop_last().skip(1),
            ));
            assert(fmt_path(ms) =~= fmt_path(ms.drop_last()) + seq![' '] + fmt_cmd_text(
                ms.last(),
            ));
        }
    }
}

/// A one-command path prints as that command's text.
proof fn lemma_fmt_path_one(ms: Seq<(bool, int, int)>)
    requires
        ms.len() == 1,
    ensures
        fmt_path(ms) == fmt_cmd_text(ms[0]),
{
    reveal_with_fuel(path_tokens, 3);
    assert(ms.skip(1) =~= Seq::<(bool, int, int)>::empty());
    assert(path_tokens(ms) =~= seq![
        (if ms[0].0 {
            seq!['M']
        } else {
            seq!['L']
        }),
        fmt_micros(ms[0].1),
        fmt_micros(ms[0].2),
    ]);
    lemma_join3(path_tokens(ms));
}

/// Joining exactly three tokens.
proof fn lemma_join3(ts: Seq<Seq<char>>)
    requires
        ts.len() == 3,
    ensures
        join_sp(ts) == ts[0] + seq![' '] + (ts[1] + seq![' '] + ts[2]),
{
    assert(ts.skip(1).skip(1) =~= ts.skip(2));
    assert(ts.skip(1)[0] == ts[1]);
    assert(ts.skip(2)[0] == ts[2]);
    assert(ts.skip(2).len() == 1);
    assert(ts.skip(1).len() == 2);
    reveal_with_fuel(join_sp, 4);
    assert(join_sp(ts) =~= ts[0] + seq![' '] + (ts[1] + seq![' '] + ts[2]));
}

/// A path's text starts with its first command's text and a space.
proof fn lemma_join_head3(ms: Seq<(bool, int, int)>)
    requires
        ms.len() >= 2,
    ensures
        fmt_path(ms) == fmt_cmd_text(ms[0]) + seq![' '] + fmt_path(ms.skip(1)),
{
    let ts = path_tokens(ms);
    lemma_path_tokens_len(ms);
    assert(ts.len() == 3 * ms.len());
    lemma_join_split3(ts, path_tokens(ms.skip(1)));
    assert(ts.skip(3) =~= path_tokens(ms.skip(1)));
    assert(ts[0] == (if ms[0].0 {
        seq!['M']
    } else {
        seq!['L']
    }));
    assert(ts[1] == fmt_micros(ms[0].1));
    assert(ts[2] == fmt_micros(ms[0].2));
    assert(fmt_cmd_text(ms[0]) + seq![' '] + fmt_path(ms.skip(1)) =~= (ts[0] + seq![' ']
        + (ts[1] + seq![' '] + (ts[2] + seq![' '] + join_sp(ts.skip(3))))));
}

/// The same, applied to the path without its last command.
proof fn lemma_join_head3_drop(ms: Seq<(bool, int, int)>)
    requires
        ms.len() >= 3,
    ensures
        fmt_path(ms.drop_last()) == fmt_cmd_text(ms.drop_last()[0]) + seq![' '] + fmt_path(
            ms.drop_last().skip(1),
        ),
{
    lemma_join_head3(ms.drop_last());
}

/// Token counts: three per command.
proof fn lemma_path_tokens_len(ms: Seq<(bool, int, int)>)
    ensures
        path_tokens(ms).len() == 3 * ms.len(),
    decreases ms.len(),
{
    if ms.len() > 0 {
        lemma_path_tokens_len(ms.skip(1));
    }
}

/// Joining a stream of at least four tokens peels three off the front.
proof fn lemma_join_split3(ts: Seq<Seq<char>>, rest: Seq<Seq<char>>)
    requires
        ts.len() >= 4,
        ts.skip(3) =~= rest,
        rest.len() >= 1,
    ensures
        join_sp(ts) == ts[0] + seq![' '] + (ts[1] + seq![' '] + (ts[2] + seq![' '] + join_sp(
            rest,
        ))),
{
    assert(ts.skip(1).skip(1) =~= ts.skip(2));
    assert(ts.skip(2).skip(1) =~= ts.skip(3));
    assert(ts.skip(1)[0] == ts[1]);
    assert(ts.skip(2)[0] == ts[2]);
    assert(ts.skip(1).len() == ts.len() - 1);
    assert(ts.skip(2).len() == ts.len() - 2);
    assert(join_sp(ts.skip(3)) == join_sp(rest));
    reveal_with_fuel(join_sp, 4);
    assert(join_sp(ts) =~= ts[0] + seq![' '] + (ts[1] + seq![' '] + (ts[2] + seq![' ']
        + join_sp(rest))));
}

/// Tokens fit for joining: each nonempty and free of whitespace.
pub open spec fn good_tokens(ts: Seq<Seq<char>>) -> bool {
    forall|i: int|
        0 <= i < ts.len() ==> (#[trigger] ts[i]).len() > 0 && forall|j: int|
            0 <= j < ts[i].len() ==> !is_ws(#[trigger] ts[i][j])
}

/// Splitting a space-joined stream of good tokens gives the tokens back.
pub proof fn lemma_tokenize_join(ts: Seq<Seq<char>>)
    requires
        good_tokens(ts),
    ensures
        tokenize(join_sp(ts)) == ts,
    decreases ts.len(),
{
    if ts.len() == 0 {
        assert(tokenize(join_sp(ts)) =~~= ts);
    } else if ts.len() == 1 {
        let t = ts[0];
        assert(join_sp(ts) == t);
        assert(t.len() > 0 && !is_ws(t[0]));
        crate::text::lemma_token_prefix_unique(t, t.len() as int);
        assert(t.subrange(0, t.len() as int) =~= t);
        assert(t.skip(t.len() as int) =~= Seq::<char>::empty());
        assert(tokenize(Seq::<char>::empty()) =~~= Seq::<Seq<char>>::empty());
        assert(tokenize(t) =~~= seq![t]);
        assert(tokenize(join_sp(ts)) =~~= ts);
    } else {
        let t = ts[0];
        let rest = join_sp(ts.skip(1));
        let s = join_sp(ts);
        assert(s == t + seq![' '] + rest);
        assert(t.len() > 0);
        assert(forall|j: int| 0 <= j < t.len() ==> !is_ws(#[trigger] t[j]));
        assert forall|j: int| 0 <= j < t.len() implies !is_ws(#[trigger] s[j]) by {
            assert(s[j] == t[j]);
        }
        assert(s[t.len() as int] == ' ');
        crate::text::lemma_token_prefix_unique(s, t.len() as int);
        assert(!is_ws(s[0]));
        assert(s.subrange(0, t.len() as int) =~= t);
        assert(s.skip(t.len() as int)[0] == ' ');
        assert(s.skip(t.len() as int).skip(1) =~= rest);
        assert(forall|i: int|
            0 <= i < ts.skip(1).len() ==> ts.skip(1)[i] == #[trigger] ts[i + 1]);
        assert(good_tokens(ts.skip(1)));
        lemma_tokenize_join(ts.skip(1));
        assert(tokenize(s) =~~= seq![t] + tokenize(s.skip(t.len() as int)));
        assert(tokenize(s.skip(t.len() as int)) == tokenize(rest));
        assert(seq![t] + ts.skip(1) =~~= ts);
    }
}

/// The tokens of a path are good for joining.
proof fn lemma_path_tokens_good(ms: Seq<(bool, int, int)>)
    ensures
        good_tokens(path_tokens(ms)),
    decreases ms.len(),
{
    if ms.len() > 0 {
        lemma_path_tokens_good(ms.skip(1));
        crate::num::lemma_fmt_micros_text(ms[0].1);
        crate::num::lemma_fmt_micros_text(ms[0].2);
        let ts = path_tokens(ms);
        let head: Seq<Seq<char>> = seq![
            (if ms[0].0 {
                seq!['M']
            } else {
                seq!['L']
            }),
            fmt_micros(ms[0].1),
            fmt_micros(ms[0].2),
        ];
        assert(ts == head + path_tokens(ms.skip(1)));
        assert forall|i: int| 0 <= i < ts.len() implies (#[trigger] ts[i]).len() > 0 && forall|
            j: int,
        |
            0 <= j < ts[i].len() ==> !is_ws(#[trigger] ts[i][j]) by {
            if i < 3 {
                assert(ts[i] == head[i]);
                if i == 0 {
                    assert(!is_ws('M') && !is_ws('L'));
                    assert(forall|j: int|
                        0 <= j < ts[0].len() ==> !is_ws(#[trigger] ts[0][j]));
                }
            } else {
                assert(ts[i] == path_tokens(ms.skip(1))[i - 3]);
            }
        }
    }
}

/// Reading the tokens of a command sequence gives the commands back.
proof fn lemma_parse_path_tokens_fmt(ms: Seq<(bool, int, int)>)
    ensures
        parse_path_tokens(path_tokens(ms)) == Option::Some(ms),
    decreases ms.len(),
{
    if ms.len() == 0 {
        assert(parse_path_tokens(path_tokens(ms)) =~~= Option::Some(ms));
    } else {
        let m = ms[0];
        let ts = path_tokens(ms);
        lemma_path_tokens_len(ms.skip(1));
        assert(ts.len() == 3 + path_tokens(ms.skip(1)).len());
        let letter: Seq<char> = if m.0 {
            seq!['M']
        } else {
            seq!['L']
        };
        assert(ts[0] == letter && ts[1] == fmt_micros(m.1) && ts[2] == fmt_micros(m.2));
        assert(seq!['M'] != seq!['L']) by {
            assert(seq!['M'][0] == 'M' && seq!['L'][0] == 'L');
        }
        crate::num::lemma_parse_fmt_micros(m.1);
        crate::num::lemma_parse_fmt_micros(m.2);
        lemma_parse_path_tokens_fmt(ms.skip(1));
        assert(ts.skip(3) =~= path_tokens(ms.skip(1)));
        assert((ts[0] == seq!['M']) == m.0);
        assert(seq![(m.0, m.1, m.2)] + ms.skip(1) =~= ms) by {
            assert(ms[0] == (m.0, m.1, m.2));
        }
    }
}

/// Printing a command sequence and parsing the text back gives the same
/// sequence: the path mini-language round-trips exactly.
pub proof fn lemma_path_round_trip(ms: Seq<(bool, int, int)>)
    ensures
        parse_path(fmt_path(ms)) == Option::Some(ms),
{
    lemma_path_tokens_good(ms);
    lemma_tokenize_join(path_tokens(ms));
    lemma_parse_path_tokens_fmt(ms);
}

impl Path {
    /// Whether `s` is a well-formed path string: exactly the strings
    /// [`Path::from_str`] accepts — letter-coordinate triples with every
    /// coordinate within the cap.
    pub fn is_valid(s: &str) -> (b: bool)
        ensures
            b == path_accepted(s@),
    {
        Path::from_str(s).is_ok()
    }
}


/// Truncating division by one million: the quotient rounded toward zero,
/// as machine division computes it.
pub open spec fn trunc_div_micros(n: int) -> int {
    if n >= 0 {
        n / 1_000_000
    } else {
        -((-n) / 1_000_000)
    }
}

/// The crop-and-scale image of a coordinate: offset subtracted, scaled,
/// and brought back to micros.
pub open spec fn crop_scale_coord(v: int, offset: int, scale: int) -> int {
    trunc_div_micros((v - offset) * scale)
}

/// A value representable by the coordinate type.
pub open spec fn fits_i64(v: int) -> bool {
    i64::MIN <= v <= i64::MAX
}

impl Path {
    /// The bounding box of all command points: minima in the top-left
    /// corner, maxima in the bottom-right. An empty path gives the
    /// reversed extreme box (`i64::MAX` corners over `i64::MIN` corners),
    /// the stand-in for the infinities; callers treat it as "no bounds".
    pub fn bounds(&self) -> (r: crate::rect::Rect)
        ensures
            self.cmds@.len() == 0 ==> r.top_left.x == i64::MAX && r.top_left.y == i64::MAX
                && r.bottom_right.x == i64::MIN && r.bottom_right.y == i64::MIN,
            forall|i: int|
                0 <= i < self.cmds@.len() ==> {
                    let p = spec_cmd_point(#[trigger] self.cmds@[i]);
                    r.top_left.x <= p.x && r.top_left.y <= p.y && r.bottom_right.x >= p.x
                        && r.bottom_right.y >= p.y
                },
            self.cmds@.len() > 0 ==> (exists|i: int|
                0 <= i < self.cmds@.len() && spec_cmd_point(#[trigger] self.cmds@[i]).x
                    == r.top_left.x) && (exists|i: int|
                0 <= i < self.cmds@.len() && spec_cmd_point(#[trigger] self.cmds@[i]).y
                    == r.top_left.y) && (exists|i: int|
                0 <= i < self.cmds@.len() && spec_cmd_point(#[trigger] self.cmds@[i]).x
                    == r.bottom_right.x) && (exists|i: int|
                0 <= i < self.cmds@.len() && spec_cmd_point(#[trigger] self.cmds@[i]).y
                    == r.bottom_right.y),
    {
        let mut min_x: i64 = i64::MAX;
        let mut min_y: i64 = i64::MAX;
        let mut max_x: i64 = i64::MIN;
        let mut max_y: i64 = i64::MIN;
        let mut i: usize = 0;
        while i < self.cmds.len()
            invariant
                i <= self.cmds@.len(),
                i == 0 ==> min_x == i64::MAX && min_y == i64::MAX && max_x == i64::MIN && max_y
                    == i64::MIN,
                forall|k: int|
                    0 <= k < i ==> {
                        let p = spec_cmd_point(#[trigger] self.cmds@[k]);
                        min_x <= p.x && min_y <= p.y && max_x >= p.x && max_y >= p.y
                    },
                i > 0 ==> (exists|k: int|
                    0 <= k < i && spec_cmd_point(#[trigger] self.cmds@[k]).x == min_x) && (
                exists|k: int|
                    0 <= k < i && spec_cmd_point(#[trigger] self.cmds@[k]).y == min_y) && (
                exists|k: int|
                    0 <= k < i && spec_cmd_point(#[trigger] self.cmds@[k]).x == max_x) && (
                exists|k: int|
                    0 <= k < i && spec_cmd_point(#[trigger] self.cmds@[k]).y == max_y),
            decreases self.cmds@.len() - i,
        {
            let p = *self.cmds[i].point();
            if i == 0 {
                min_x = p.x;
                min_y = p.y;
                max_x = p.x;
                max_y = p.y;
            } else {
                if p.x < min_x {
                    min_x = p.x;
                }
                if p.y < min_y {
                    min_y = p.y;
                }
                if p.x > max_x {
                    max_x = p.x;
                }
                if p.y > max_y {
                    max_y = p.y;
                }
            }
            i = i + 1;
        }
        crate::rect::Rect::new(Point::from_xy(min_x, min_y), Point::from_xy(max_x, max_y))
    }

    /// A new path with `f` applied to every command's point, commands kept
    /// in order and kind.
    pub fn transform<F: Fn(&Point) -> Point>(&self, f: F) -> (p: Path)
        requires
            forall|pt: &Point| #[trigger] f.requires((pt,)),
        ensures
            p.cmds@.len() == self.cmds@.len(),
            forall|i: int|
                0 <= i < self.cmds@.len() ==> {
                    let oldc = self.cmds@[i];
                    let newc = #[trigger] p.cmds@[i];
                    &&& (newc is MoveTo <==> oldc is MoveTo)
                    &&& f.ensures((&spec_cmd_point(oldc),), spec_cmd_point(newc))
                },
    {
        let mut cmds: Vec<Cmd> = Vec::new();
        let mut i: usize = 0;
        while i < self.cmds.len()
            invariant
                i <= self.cmds@.len(),
                cmds@.len() == i,
                forall|pt: &Point| #[trigger] f.requires((pt,)),
                forall|k: int|
                    0 <= k < i ==> {
                        let oldc = self.cmds@[k];
                        let newc = #[trigger] cmds@[k];
                        &&& (newc is MoveTo <==> oldc is MoveTo)
                        &&& f.ensures((&spec_cmd_point(oldc),), spec_cmd_point(newc))
                    },
            decreases self.cmds@.len() - i,
        {
            let c = match &self.cmds[i] {
                Cmd::MoveTo(pt) => Cmd::MoveTo(f(pt)),
                Cmd::LineTo(pt) => Cmd::LineTo(f(pt)),
            };
            cmds.push(c);
            i = i + 1;
        }
        Path { cmds }
    }

    /// Apply `f` to every command's point in place, keeping order and
    /// kind: the destructive counterpart of [`Path::transform`].
    pub fn transform_into<F: Fn(&Point) -> Point>(&mut self, f: F)
        requires
            forall|pt: &Point| #[trigger] f.requires((pt,)),
        ensures
            final(self).cmds@.len() == old(self).cmds@.len(),
            forall|i: int|
                0 <= i < old(self).cmds@.len() ==> {
                    let oldc = old(self).cmds@[i];
                    let newc = #[trigger] final(self).cmds@[i];
                    &&& (newc is MoveTo <==> oldc is MoveTo)
                    &&& f.ensures((&spec_cmd_point(oldc),), spec_cmd_point(newc))
                },
    {
        let mut i: usize = 0;
        while i < self.cmds.len()
            invariant
                i <= self.cmds@.len(),
                self.cmds@.len() == old(self).cmds@.len(),
                forall|pt: &Point| #[trigger] f.requires((pt,)),
                forall|k: int| i <= k < self.cmds@.len() ==> #[trigger] self.cmds@[k] == old(
                    self,
                ).cmds@[k],
                forall|k: int|
                    0 <= k < i ==> {
                        let oldc = old(self).cmds@[k];
                        let newc = #[trigger] self.cmds@[k];
                        &&& (newc is MoveTo <==> oldc is MoveTo)
                        &&& f.ensures((&spec_cmd_point(oldc),), spec_cmd_point(newc))
                    },
            decreases self.cmds@.len() - i,
        {
            let c = match &self.cmds[i] {
                Cmd::MoveTo(pt) => Cmd::MoveTo(f(pt)),
                Cmd::LineTo(pt) => Cmd::LineTo(f(pt)),
            };
            self.cmds.set(i, c);
            i = i + 1;
        }
    }

    /// The crop-and-scale transform of the render pipeline: every point
    /// `(x, y)` becomes `((x-tx)*scale/unit, (y-ty)*scale/unit)`, exactly.
    /// `Ok` when every transformed coordinate is representable, else a
    /// range failure.
    pub fn crop_scale(&self, tx: i64, ty: i64, scale: i64) -> (r: Result<Path, Error>)
        requires
            path_wf(self.cmds@),
            -MAX_MICROS <= tx <= MAX_MICROS,
            -MAX_MICROS <= ty <= MAX_MICROS,
            -MAX_MICROS <= scale <= MAX_MICROS,
        ensures
            match r {
                Ok(p) => {
                    &&& p.cmds@.len() == self.cmds@.len()
                    &&& forall|i: int|
                        0 <= i < self.cmds@.len() ==> {
                            let oldc = self.cmds@[i];
                            let newc = #[trigger] p.cmds@[i];
                            &&& (newc is MoveTo <==> oldc is MoveTo)
                            &&& spec_cmd_point(newc).x == crop_scale_coord(
                                spec_cmd_point(oldc).x as int,
                                tx as int,
                                scale as int,
                            )
                            &&& spec_cmd_point(newc).y == crop_scale_coord(
                                spec_cmd_point(oldc).y as int,
                                ty as int,
                                scale as int,
                            )
                        }
                },
                Err(e) => {
                    &&& e == Error::Range
                    &&& exists|i: int|
                        0 <= i < self.cmds@.len() && {
                            let p = spec_cmd_point(#[trigger] self.cmds@[i]);
                            !fits_i64(crop_scale_coord(p.x as int, tx as int, scale as int))
                                || !fits_i64(
                                crop_scale_coord(p.y as int, ty as int, scale as int),
                            )
                        }
                },
            },
    {
        let mut cmds: Vec<Cmd> = Vec::new();
        let mut i: usize = 0;
        while i < self.cmds.len()
            invariant
                path_wf(self.cmds@),
                -MAX_MICROS <= tx <= MAX_MICROS,
                -MAX_MICROS <= ty <= MAX_MICROS,
                -MAX_MICROS <= scale <= MAX_MICROS,
                i <= self.cmds@.len(),
                cmds@.len() == i,
                forall|k: int|
                    0 <= k < i ==> {
                        let oldc = self.cmds@[k];
                        let newc = #[trigger] cmds@[k];
                        &&& (newc is MoveTo <==> oldc is MoveTo)
                        &&& spec_cmd_point(newc).x == crop_scale_coord(
                            spec_cmd_point(oldc).x as int,
                            tx as int,
                            scale as int,
                        )
                        &&& spec_cmd_point(newc).y == crop_scale_coord(
                            spec_cmd_point(oldc).y as int,
                            ty as int,
                            scale as int,
                        )
                    },
            decreases self.cmds@.len() - i,
        {
            let c = self.cmds[i];
            let p = *c.point();
            let nx = match scale_point_coord(p.x, tx, scale) {
                Some(v) => v,
                None => {
                    return Err(Error::Range);
                },
            };
            let ny = match scale_point_coord(p.y, ty, scale) {
                Some(v) => v,
                None => {
                    return Err(Error::Range);
                },
            };
            let np = Point::from_xy(nx, ny);
            let nc = match c {
                Cmd::MoveTo(_) => Cmd::MoveTo(np),
                Cmd::LineTo(_) => Cmd::LineTo(np),
            };
            cmds.push(nc);
            i = i + 1;
        }
        Ok(Path { cmds })
    }
}

/// One coordinate of the crop-and-scale transform, refusing a result that
/// does not fit the coordinate type.
fn scale_point_coord(v: i64, offset: i64, scale: i64) -> (r: Option<i64>)
    requires
        -MAX_MICROS <= v <= MAX_MICROS,
        -MAX_MICROS <= offset <= MAX_MICROS,
        -MAX_MICROS <= scale <= MAX_MICROS,
    ensures
        match r {
            Some(x) => x == crop_scale_coord(v as int, offset as int, scale as int),
            None => !fits_i64(crop_scale_coord(v as int, offset as int, scale as int)),
        },
{
    let diff = (v as i128) - (offset as i128);
    proof {
        assert(diff * scale <= 2_000_000_000_000_000_000_000_000_000_000 && diff * scale
            >= -2_000_000_000_000_000_000_000_000_000_000) by (nonlinear_arith)
            requires
                -2_000_000_000_000_000 <= diff <= 2_000_000_000_000_000,
                -1_000_000_000_000_000 <= scale <= 1_000_000_000_000_000,
        ;
    }
    let num = diff * (scale as i128);
    let q: i128 = if num >= 0 {
        num / 1_000_000
    } else {
        -((-num) / 1_000_000)
    };
    proof {
        assert(num >= 0 ==> 0 <= num / 1_000_000 <= num) by (nonlinear_arith);
        assert(num < 0 ==> 0 <= (-num) / 1_000_000 <= -num) by (nonlinear_arith);
        assert(q == trunc_div_micros(num as int));
    }
    if q >= -0x7fff_ffff_ffff_ffff - 1 && q <= 0x7fff_ffff_ffff_ffff {
        Some(q as i64)
    } else {
        None
    }
}

} // verus!
