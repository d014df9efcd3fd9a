//! The map text format: one colony per line, `Name dir=Neighbor ...`,
//! fields whitespace-separated, each direction one of the lowercase
//! tokens `north`, `south`, `east`, `west`; blank lines are ignored.
//!
//! Malformed content is surfaced as a descriptive failure: a connection
//! token without an equals sign, an unrecognized direction token, a
//! duplicate colony name, or a reference to an undeclared neighbor.

use crate::simulation::Simulation;
use crate::state::{spec_mask, tallied, wf, SimView};
use crate::types::{ColonyId, Direction};
use vstd::prelude::*;

verus! {

/// ASCII whitespace, as the tokenizer understands it.
pub open spec fn is_ws(b: u8) -> bool {
    b == 32 || b == 9 || b == 10 || b == 11 || b == 12 || b == 13
}

/// Index of the first line break at or after `i`, or the end of input.
pub open spec fn line_end(s: Seq<u8>, i: int) -> int
    decreases s.len() - i,
{
    if !(0 <= i < s.len()) {
        s.len() as int
    } else if s[i] == 10 {
        i
    } else {
        line_end(s, i + 1)
    }
}

/// Index of the first whitespace byte at or after `i`, or the end of
/// the line: where the token that starts at `i` ends.
pub open spec fn token_end(s: Seq<u8>, i: int) -> int
    decreases s.len() - i,
{
    if !(0 <= i < s.len()) {
        s.len() as int
    } else if is_ws(s[i]) {
        i
    } else {
        token_end(s, i + 1)
    }
}

/// A scan for a line break or whitespace never runs backwards and never
/// passes the end of the input.
pub proof fn lemma_scan_bounds(s: Seq<u8>, i: int)
    requires
        0 <= i <= s.len(),
    ensures
        i <= line_end(s, i) <= s.len(),
        i <= token_end(s, i) <= s.len(),
    decreases s.len() - i,
{
    if i < s.len() {
        lemma_scan_bounds(s, i + 1);
    }
}

/// The whitespace-separated tokens of `s` from position `i` on.
pub open spec fn split_ws_from(s: Seq<u8>, i: int) -> Seq<Seq<u8>>
    decreases s.len() - i,
    via split_ws_from_dec
{
    if !(0 <= i < s.len()) {
        Seq::empty()
    } else if is_ws(s[i]) {
        split_ws_from(s, i + 1)
    } else {
        seq![s.subrange(i, token_end(s, i))] + split_ws_from(s, token_end(s, i))
    }
}

#[via_fn]
proof fn split_ws_from_dec(s: Seq<u8>, i: int) {
    if 0 <= i < s.len() && !is_ws(s[i]) {
        lemma_scan_bounds(s, i + 1);
    }
}

/// The token lists of the nonempty lines of `s` from position `i` on.
pub open spec fn token_lines_from(s: Seq<u8>, i: int) -> Seq<Seq<Seq<u8>>>
    decreases s.len() - i,
    via token_lines_from_dec
{
    if !(0 <= i < s.len()) {
        Seq::empty()
    } else {
        let e = line_end(s, i);
        let toks = split_ws_from(s.subrange(i, e), 0);
        let head = if toks.len() == 0 {
            Seq::empty()
        } else {
            seq![toks]
        };
        if e >= s.len() {
            head
        } else {
            head + token_lines_from(s, e + 1)
        }
    }
}

#[via_fn]
proof fn token_lines_from_dec(s: Seq<u8>, i: int) {
    if 0 <= i < s.len() {
        lemma_scan_bounds(s, i);
    }
}

/// Index of the first equals sign at or after `i`, or the end of the
/// token.
pub open spec fn eq_pos(t: Seq<u8>, i: int) -> int
    decreases t.len() - i,
{
    if !(0 <= i < t.len()) {
        t.len() as int
    } else if t[i] == 61 {
        i
    } else {
        eq_pos(t, i + 1)
    }
}

/// An equals-sign scan never runs backwards and never passes the end.
pub proof fn lemma_eq_pos_bounds(t: Seq<u8>, i: int)
    requires
        0 <= i <= t.len(),
    ensures
        i <= eq_pos(t, i) <= t.len(),
    decreases t.len() - i,
{
    if i < t.len() {
        lemma_eq_pos_bounds(t, i + 1);
    }
}

/// The bytes of `north`.
pub open spec fn north_token() -> Seq<u8> {
    seq![110u8, 111u8, 114u8, 116u8, 104u8]
}

/// The bytes of `south`.
pub open spec fn south_token() -> Seq<u8> {
    seq![115u8, 111u8, 117u8, 116u8, 104u8]
}

/// The bytes of `east`.
pub open spec fn east_token() -> Seq<u8> {
    seq![101u8, 97u8, 115u8, 116u8]
}

/// The bytes of `west`.
pub open spec fn west_token() -> Seq<u8> {
    seq![119u8, 101u8, 115u8, 116u8]
}

/// The direction a token names, if any.
pub open spec fn token_dir(t: Seq<u8>) -> Option<Direction> {
    if t == north_token() {
        Some(Direction::North)
    } else if t == south_token() {
        Some(Direction::South)
    } else if t == east_token() {
        Some(Direction::East)
    } else if t == west_token() {
        Some(Direction::West)
    } else {
        None
    }
}

/// The direction part of a connection token: what stands before the
/// first equals sign.
pub open spec fn conn_head(t: Seq<u8>) -> Seq<u8> {
    t.subrange(0, eq_pos(t, 0))
}

/// The neighbor-name part of a connection token: what stands after the
/// first equals sign.
pub open spec fn conn_tail(t: Seq<u8>) -> Seq<u8> {
    t.subrange(eq_pos(t, 0) + 1, t.len() as int)
}

/// A parse failure, in the ghost world.
pub ghost enum SpecMapError {
    /// A connection token with no equals sign.
    InvalidConnection(Seq<u8>),
    /// A direction part that names no direction.
    InvalidDirection(Seq<u8>),
    /// A colony name declared twice.
    DuplicateColony(Seq<u8>),
    /// More colonies than the sixteen-bit identifier space admits.
    TooManyColonies,
    /// A connection to a name no line declares.
    UnknownNeighbor(Seq<u8>),
}

/// A parse failure: the offending token or name rides along for the
/// caller's diagnostic.
#[derive(Debug, PartialEq, Eq)]
pub enum MapError {
    /// A connection token with no equals sign.
    InvalidConnection(Vec<u8>),
    /// A direction part that names no direction.
    InvalidDirection(Vec<u8>),
    /// A colony name declared twice.
    DuplicateColony(Vec<u8>),
    /// More colonies than the sixteen-bit identifier space admits.
    TooManyColonies,
    /// A connection to a name no line declares.
    UnknownNeighbor(Vec<u8>),
}

impl View for MapError {
    type V = SpecMapError;

    open spec fn view(&self) -> SpecMapError {
        match self {
            MapError::InvalidConnection(t) => SpecMapError::InvalidConnection(t@),
            MapError::InvalidDirection(t) => SpecMapError::InvalidDirection(t@),
            MapError::DuplicateColony(t) => SpecMapError::DuplicateColony(t@),
            MapError::TooManyColonies => SpecMapError::TooManyColonies,
            MapError::UnknownNeighbor(t) => SpecMapError::UnknownNeighbor(t@),
        }
    }
}

/// The first syntax failure among a line's connection tokens, scanning
/// from token `k` on.
pub open spec fn line_syntax_err(t: Seq<Seq<u8>>, k: int) -> Option<SpecMapError>
    decreases t.len() - k,
{
    if !(1 <= k < t.len()) {
        None
    } else if eq_pos(t[k], 0) == t[k].len() {
        Some(SpecMapError::InvalidConnection(t[k]))
    } else if token_dir(conn_head(t[k])) is None {
        Some(SpecMapError::InvalidDirection(conn_head(t[k])))
    } else {
        line_syntax_err(t, k + 1)
    }
}

/// The first syntax failure in reading order, scanning from line `i` on.
pub open spec fn syntax_err(tls: Seq<Seq<Seq<u8>>>, i: int) -> Option<SpecMapError>
    decreases tls.len() - i,
{
    if !(0 <= i < tls.len()) {
        None
    } else if line_syntax_err(tls[i], 1) is Some {
        line_syntax_err(tls[i], 1)
    } else {
        syntax_err(tls, i + 1)
    }
}

/// The first index in `[j, k)` holding `nm`, or `k` when none does.
pub open spec fn index_of_name(names: Seq<Seq<u8>>, nm: Seq<u8>, j: int, k: int) -> int
    decreases k - j,
{
    if !(0 <= j < k) {
        k
    } else if names[j] == nm {
        j
    } else {
        index_of_name(names, nm, j + 1, k)
    }
}

/// The first duplicated name in declaration order, scanning from `i` on.
pub open spec fn dup_err(names: Seq<Seq<u8>>, i: int) -> Option<SpecMapError>
    decreases names.len() - i,
{
    if !(0 <= i < names.len()) {
        None
    } else if index_of_name(names, names[i], 0, i) < i {
        Some(SpecMapError::DuplicateColony(names[i]))
    } else {
        dup_err(names, i + 1)
    }
}

/// The first undeclared neighbor among a line's connections, scanning
/// from token `k` on.
pub open spec fn line_unknown_err(t: Seq<Seq<u8>>, names: Seq<Seq<u8>>, k: int) -> Option<
    SpecMapError,
>
    decreases t.len() - k,
{
    if !(1 <= k < t.len()) {
        None
    } else if index_of_name(names, conn_tail(t[k]), 0, names.len() as int) == names.len() {
        Some(SpecMapError::UnknownNeighbor(conn_tail(t[k])))
    } else {
        line_unknown_err(t, names, k + 1)
    }
}

/// The first undeclared neighbor in reading order, scanning from line
/// `i` on.
pub open spec fn unknown_err(tls: Seq<Seq<Seq<u8>>>, names: Seq<Seq<u8>>, i: int) -> Option<
    SpecMapError,
>
    decreases tls.len() - i,
{
    if !(0 <= i < tls.len()) {
        None
    } else if line_unknown_err(tls[i], names, 1) is Some {
        line_unknown_err(tls[i], names, 1)
    } else {
        unknown_err(tls, names, i + 1)
    }
}

/// Index of the first line holding an undeclared neighbor, scanning
/// from line `i` on, or the number of lines when every one resolves.
pub open spec fn unknown_line(tls: Seq<Seq<Seq<u8>>>, names: Seq<Seq<u8>>, i: int) -> int
    decreases tls.len() - i,
{
    if !(0 <= i < tls.len()) {
        tls.len() as int
    } else if line_unknown_err(tls[i], names, 1) is Some {
        i
    } else {
        unknown_line(tls, names, i + 1)
    }
}

/// Index of a line's first connection token whose neighbor name is
/// undeclared, scanning from token `k` on, or the token count when
/// every one resolves.
pub open spec fn unknown_token(t: Seq<Seq<u8>>, names: Seq<Seq<u8>>, k: int) -> int
    decreases t.len() - k,
{
    if !(1 <= k < t.len()) {
        t.len() as int
    } else if index_of_name(names, conn_tail(t[k]), 0, names.len() as int) == names.len() {
        k
    } else {
        unknown_token(t, names, k + 1)
    }
}

/// The names the lines declare, in order.
pub open spec fn declared_names(tls: Seq<Seq<Seq<u8>>>) -> Seq<Seq<u8>> {
    Seq::new(tls.len(), |i: int| tls[i][0])
}

/// What parsing `content` answers: the first failure in the order the
/// passes run — connection syntax, the identifier-space bound, duplicate
/// names, undeclared neighbors — or nothing when the map is well formed.
pub open spec fn parse_err(tls: Seq<Seq<Seq<u8>>>) -> Option<SpecMapError> {
    if syntax_err(tls, 0) is Some {
        syntax_err(tls, 0)
    } else if tls.len() > 0x10000 {
        Some(SpecMapError::TooManyColonies)
    } else if dup_err(declared_names(tls), 0) is Some {
        dup_err(declared_names(tls), 0)
    } else {
        unknown_err(tls, declared_names(tls), 0)
    }
}

/// The link out of line `i` in direction `d`: the last connection token
/// of that line naming `d`, its neighbor name resolved to that name's
/// declaration index.
pub open spec fn last_link(t: Seq<Seq<u8>>, names: Seq<Seq<u8>>, d: Direction) -> Option<u16>
    decreases t.len(),
{
    if t.len() <= 1 {
        None
    } else {
        let tok = t[t.len() - 1];
        if eq_pos(tok, 0) < tok.len() && token_dir(conn_head(tok)) == Some(d) && index_of_name(
            names,
            conn_tail(tok),
            0,
            names.len() as int,
        ) < names.len() {
            Some(index_of_name(names, conn_tail(tok), 0, names.len() as int) as u16)
        } else {
            last_link(t.drop_last(), names, d)
        }
    }
}

/// Every token list the tokenizer keeps holds at least one token.
pub proof fn lemma_token_lines_nonempty(s: Seq<u8>, i: int)
    ensures
        forall|j: int|
            0 <= j < token_lines_from(s, i).len() ==> #[trigger] token_lines_from(s, i)[j].len()
                >= 1,
    decreases s.len() - i,
{
    if 0 <= i < s.len() {
        lemma_scan_bounds(s, i);
        let e = line_end(s, i);
        let toks = split_ws_from(s.subrange(i, e), 0);
        let head: Seq<Seq<Seq<u8>>> = if toks.len() == 0 {
            Seq::empty()
        } else {
            seq![toks]
        };
        if e < s.len() {
            lemma_token_lines_nonempty(s, e + 1);
        }
        let rest: Seq<Seq<Seq<u8>>> = if e >= s.len() {
            Seq::empty()
        } else {
            token_lines_from(s, e + 1)
        };
        assert(token_lines_from(s, i) == head + rest);
        assert forall|j: int|
            0 <= j < token_lines_from(s, i).len() implies #[trigger] token_lines_from(s, i)[j].len()
            >= 1 by {
            if j < head.len() {
                assert(token_lines_from(s, i)[j] == toks);
            } else {
                assert(token_lines_from(s, i)[j] == rest[j - head.len()]);
            }
        }
    }
}

/// A line that passed the syntax check has, at every connection token,
/// an equals sign and a recognized direction.
pub proof fn lemma_line_syntax_ok(t: Seq<Seq<u8>>, k: int)
    requires
        k >= 1,
        line_syntax_err(t, k) is None,
    ensures
        forall|q: int|
            k <= q < t.len() && 1 <= q ==> eq_pos(#[trigger] t[q], 0) < t[q].len() && token_dir(
                conn_head(t[q]),
            ) is Some,
    decreases t.len() - k,
{
    if 1 <= k < t.len() {
        lemma_eq_pos_bounds(t[k], 0);
        lemma_line_syntax_ok(t, k + 1);
    }
}

/// A resolved link always points inside the name table.
pub proof fn lemma_index_of_name_bounds(names: Seq<Seq<u8>>, nm: Seq<u8>, j: int, k: int)
    requires
        0 <= j <= k,
    ensures
        j <= index_of_name(names, nm, j, k) <= k,
        index_of_name(names, nm, j, k) < k ==> names[index_of_name(names, nm, j, k)] == nm,
    decreases k - j,
{
    if j < k && names[j] != nm {
        lemma_index_of_name_bounds(names, nm, j + 1, k);
    }
}

/// A syntax-clean input is syntax-clean line by line.
pub proof fn lemma_syntax_ok_lines(tls: Seq<Seq<Seq<u8>>>, i: int)
    requires
        0 <= i,
        syntax_err(tls, i) is None,
    ensures
        forall|j: int| i <= j < tls.len() ==> line_syntax_err(#[trigger] tls[j], 1) is None,
    decreases tls.len() - i,
{
    if i < tls.len() {
        lemma_syntax_ok_lines(tls, i + 1);
    }
}

/// Whether a byte is whitespace to the tokenizer.
fn is_ws_byte(b: u8) -> (r: bool)
    ensures
        r == is_ws(b),
{
    b == 32 || b == 9 || b == 10 || b == 11 || b == 12 || b == 13
}

/// The bytes of `t` from `a` up to `b`.
fn copy_range(t: &Vec<u8>, a: usize, b: usize) -> (r: Vec<u8>)
    requires
        a <= b <= t@.len(),
    ensures
        r@ == t@.subrange(a as int, b as int),
{
    let mut r: Vec<u8> = Vec::new();
    let mut j = a;
    while j < b
        invariant
            a <= j <= b <= t@.len(),
            r@ =~= t@.subrange(a as int, j as int),
        decreases b - j,
    {
        r.push(t[j]);
        j = j + 1;
    }
    proof {
        assert(r@ =~= t@.subrange(a as int, b as int));
    }
    r
}

/// Whether two byte strings hold the same bytes.
fn bytes_eq(a: &Vec<u8>, b: &Vec<u8>) -> (r: bool)
    ensures
        r == (a@ == b@),
{
    if a.len() != b.len() {
        return false;
    }
    let mut j: usize = 0;
    while j < a.len()
        invariant
            j <= a.len(),
            a@.len() == b@.len(),
            forall|q: int| 0 <= q < j ==> a@[q] == b@[q],
        decreases a.len() - j,
    {
        if a[j] != b[j] {
            return false;
        }
        j = j + 1;
    }
    proof {
        assert(a@ =~= b@);
    }
    true
}

/// Position of the first equals sign in a connection token, or its
/// length when it has none.
fn find_eq(t: &Vec<u8>) -> (r: usize)
    ensures
        r as int == eq_pos(t@, 0),
        r <= t@.len(),
{
    let mut j: usize = 0;
    while j < t.len()
        invariant
            j <= t@.len(),
            eq_pos(t@, 0) == eq_pos(t@, j as int),
        decreases t.len() - j,
    {
        if t[j] == 61 {
            return j;
        }
        proof {
            assert(eq_pos(t@, j as int) == eq_pos(t@, j + 1));
        }
        j = j + 1;
    }
    proof {
        assert(eq_pos(t@, j as int) == t@.len());
    }
    j
}

/// The direction a token names, if any.
fn token_direction(h: &Vec<u8>) -> (r: Option<Direction>)
    ensures
        r == token_dir(h@),
{
    if h.len() == 5 && h[0] == 110 && h[1] == 111 && h[2] == 114 && h[3] == 116 && h[4] == 104 {
        proof {
            assert(h@ =~= north_token());
        }
        Some(Direction::North)
    } else if h.len() == 5 && h[0] == 115 && h[1] == 111 && h[2] == 117 && h[3] == 116 && h[4]
        == 104 {
        proof {
            assert(h@ =~= south_token());
        }
        Some(Direction::South)
    } else if h.len() == 4 && h[0] == 101 && h[1] == 97 && h[2] == 115 && h[3] == 116 {
        proof {
            assert(h@ =~= east_token());
        }
        Some(Direction::East)
    } else if h.len() == 4 && h[0] == 119 && h[1] == 101 && h[2] == 115 && h[3] == 116 {
        proof {
            assert(h@ =~= west_token());
        }
        Some(Direction::West)
    } else {
        None
    }
}

/// The whitespace-separated tokens of one line.
fn tokenize_line(line: &Vec<u8>) -> (r: Vec<Vec<u8>>)
    ensures
        r.deep_view() == split_ws_from(line@, 0),
{
    let mut r: Vec<Vec<u8>> = Vec::new();
    let mut p: usize = 0;
    while p < line.len()
        invariant
            p <= line.len(),
            r.deep_view() + split_ws_from(line@, p as int) =~~= split_ws_from(line@, 0),
        decreases line.len() - p,
    {
        if is_ws_byte(line[p]) {
            proof {
                assert(split_ws_from(line@, p as int) == split_ws_from(line@, p + 1));
            }
            p = p + 1;
        } else {
            let ghost start = p as int;
            let mut tok: Vec<u8> = Vec::new();
            while p < line.len() && !is_ws_byte(line[p])
                invariant
                    0 <= start <= p <= line.len(),
                    tok@ =~= line@.subrange(start, p as int),
                    token_end(line@, start) == token_end(line@, p as int),
                decreases line.len() - p,
            {
                proof {
                    assert(token_end(line@, p as int) == token_end(line@, p + 1));
                }
                tok.push(line[p]);
                proof {
                    assert(tok@ == line@.subrange(start, p as int).push(line@[p as int]));
                    assert(line@.subrange(start, p as int).push(line@[p as int]) =~= line@.subrange(
                        start,
                        p as int + 1,
                    ));
                    assert(tok@ =~= line@.subrange(start, p as int + 1));
                }
                p = p + 1;
            }
            proof {
                assert(token_end(line@, p as int) == p);
                assert(tok@ =~= line@.subrange(start, token_end(line@, start)));
            }
            let ghost rpre = r.deep_view();
            let ghost tokv = tok@;
            r.push(tok);
            proof {
                assert(r.deep_view() =~~= rpre.push(tokv));
                assert(split_ws_from(line@, start) == seq![
                    line@.subrange(start, token_end(line@, start)),
                ] + split_ws_from(line@, token_end(line@, start)));
                assert(r.deep_view() + split_ws_from(line@, p as int) =~~= split_ws_from(
                    line@,
                    0,
                ));
            }
        }
    }
    proof {
        assert(split_ws_from(line@, p as int) =~~= Seq::<Seq<u8>>::empty());
        assert(r.deep_view() =~~= split_ws_from(line@, 0));
    }
    r
}

/// The token lists of the nonempty lines of the whole input.
fn tokenize(content: &Vec<u8>) -> (r: Vec<Vec<Vec<u8>>>)
    ensures
        r.deep_view() == token_lines_from(content@, 0),
{
    let mut r: Vec<Vec<Vec<u8>>> = Vec::new();
    let mut i: usize = 0;
    while i < content.len()
        invariant
            i <= content.len() + 1,
            r.deep_view() + token_lines_from(content@, i as int) =~~= token_lines_from(
                content@,
                0,
            ),
        decreases content.len() + 1 - i,
    {
        let ghost start = i as int;
        let mut line: Vec<u8> = Vec::new();
        while i < content.len() && content[i] != 10
            invariant
                0 <= start <= i <= content.len(),
                line@ =~= content@.subrange(start, i as int),
                line_end(content@, start) == line_end(content@, i as int),
            decreases content.len() - i,
        {
            proof {
                assert(line_end(content@, i as int) == line_end(content@, i + 1));
            }
            line.push(content[i]);
            proof {
                assert(line@ == content@.subrange(start, i as int).push(content@[i as int]));
                assert(content@.subrange(start, i as int).push(content@[i as int])
                    =~= content@.subrange(start, i as int + 1));
                assert(line@ =~= content@.subrange(start, i as int + 1));
            }
            i = i + 1;
        }
        proof {
            assert(line_end(content@, i as int) == i);
            assert(line@ =~= content@.subrange(start, line_end(content@, start)));
        }
        let toks = tokenize_line(&line);
        let ghost rpre = r.deep_view();
        let ghost toksv = toks.deep_view();
        if toks.len() > 0 {
            r.push(toks);
            proof {
                assert(r.deep_view() =~~= rpre.push(toksv));
            }
        }
        proof {
            let e = line_end(content@, start);
            assert(e == i as int);
            assert(split_ws_from(content@.subrange(start, e), 0) == toksv);
            if e >= content@.len() {
                assert(token_lines_from(content@, i + 1) =~~= Seq::<Seq<Seq<u8>>>::empty());
            }
            if (i as int) < content@.len() {
                assert(r.deep_view() + token_lines_from(content@, i + 1) =~~= token_lines_from(
                    content@,
                    0,
                ));
            } else {
                assert(r.deep_view() + token_lines_from(content@, i as int) =~~= token_lines_from(
                    content@,
                    0,
                ));
            }
        }
        if i < content.len() {
            i = i + 1;
        }
    }
    proof {
        assert(token_lines_from(content@, i as int) =~~= Seq::<Seq<Seq<u8>>>::empty());
        assert(r.deep_view() =~~= token_lines_from(content@, 0));
    }
    r
}

/// Index of the line that declared `nm`, scanning in declaration order.
fn find_name(token_lines: &Vec<Vec<Vec<u8>>>, nm: &Vec<u8>) -> (r: Option<ColonyId>)
    requires
        token_lines@.len() <= 0x10000,
        forall|j: int|
            0 <= j < token_lines.deep_view().len() ==> #[trigger] token_lines.deep_view()[j].len()
                >= 1,
    ensures
        ({
            let nms = declared_names(token_lines.deep_view());
            let idx = index_of_name(nms, nm@, 0, nms.len() as int);
            r == (if idx < nms.len() {
                Some(idx as u16)
            } else {
                None::<u16>
            })
        }),
{
    let ghost nms = declared_names(token_lines.deep_view());
    let ghost nn = nms.len() as int;
    let n = token_lines.len();
    let mut j: usize = 0;
    while j < n
        invariant
            j <= n,
            n == token_lines@.len(),
            n <= 0x10000,
            nms == declared_names(token_lines.deep_view()),
            nn == nms.len() as int,
            nn == n,
            forall|q: int|
                0 <= q < token_lines.deep_view().len() ==> #[trigger] token_lines.deep_view()[
                    q
                ].len() >= 1,
            index_of_name(nms, nm@, 0, nn) == index_of_name(nms, nm@, j as int, nn),
        decreases n - j,
    {
        proof {
            assert(token_lines.deep_view()[j as int] == token_lines@[j as int].deep_view());
            assert(token_lines.deep_view()[j as int].len() >= 1);
            assert(token_lines@[j as int].deep_view()[0] == token_lines@[j as int]@[0].deep_view());
            assert(token_lines@[j as int]@[0].deep_view() =~= token_lines@[j as int]@[0]@);
            assert(nms[j as int] == token_lines@[j as int]@[0]@);
        }
        if bytes_eq(&token_lines[j][0], nm) {
            proof {
                assert(index_of_name(nms, nm@, j as int, nn) == j);
            }
            return Some(j as ColonyId);
        }
        proof {
            assert(nms[j as int] != nm@);
            assert(index_of_name(nms, nm@, j as int, nn) == index_of_name(nms, nm@, j + 1, nn));
        }
        j = j + 1;
    }
    proof {
        assert(index_of_name(nms, nm@, j as int, nn) == nn);
    }
    None
}

impl Simulation {
    /// Parses map text into this fresh simulation: colony names in line
    /// order, one link per connection token with the last token per
    /// direction winning, and every valid-directions mask recomputed.
    /// The first failure in pass order — connection syntax, the
    /// identifier-space bound, duplicate names, undeclared neighbors —
    /// is returned instead.
    pub fn parse_map(&mut self, content: &Vec<u8>) -> (r: Result<(), MapError>)
        requires
            wf(old(self)@),
            old(self)@.n == 0,
            old(self)@.m() == 0,
        ensures
            ({
                let tls = token_lines_from(content@, 0);
                let nms = declared_names(tls);
                &&& (r is Ok <==> parse_err(tls) is None)
                &&& (r matches Err(e) ==> Some(e@) == parse_err(tls))
                &&& (r is Ok ==> ({
                    let base = SimView {
                        valid: Seq::new(tls.len(), |c: int| true),
                        north: Seq::new(
                            tls.len(),
                            |c: int| last_link(tls[c], nms, Direction::North),
                        ),
                        south: Seq::new(
                            tls.len(),
                            |c: int| last_link(tls[c], nms, Direction::South),
                        ),
                        east: Seq::new(tls.len(), |c: int| last_link(tls[c], nms, Direction::East)),
                        west: Seq::new(tls.len(), |c: int| last_link(tls[c], nms, Direction::West)),
                        mask: Seq::new(tls.len(), |c: int| 0u8),
                        names: nms,
                        count: Seq::new(tls.len(), |c: int| 0u32),
                        witness: Seq::new(tls.len(), |c: int| None::<u16>),
                        n: tls.len() as int,
                        ..old(self)@
                    };
                    final(self)@ == (SimView {
                        mask: Seq::new(tls.len(), |c: int| spec_mask(base, c)),
                        ..base
                    })
                }))
            }),
            r is Ok ==> tallied(final(self)@) && (forall|c: int|
                0 <= c < final(self)@.n ==> final(self)@.count[c] == 0 && final(self)@.witness[c]
                    is None && final(self)@.valid[c]),
            ({
                let tls = token_lines_from(content@, 0);
                let nms = declared_names(tls);
                &&& (r matches Err(e) && !(e@ is UnknownNeighbor) ==> *final(self) == *old(self))
                &&& (r matches Err(e) && e@ is UnknownNeighbor ==> ({
                    let bi = unknown_line(tls, nms, 0);
                    let kf = unknown_token(tls[bi], nms, 1);
                    final(self)@ == (SimView {
                        valid: Seq::new(tls.len(), |c: int| true),
                        north: Seq::new(
                            tls.len(),
                            |j: int|
                                if j < bi {
                                    last_link(tls[j], nms, Direction::North)
                                } else if j == bi {
                                    last_link(tls[bi].subrange(0, kf), nms, Direction::North)
                                } else {
                                    None::<u16>
                                },
                        ),
                        south: Seq::new(
                            tls.len(),
                            |j: int|
                                if j < bi {
                                    last_link(tls[j], nms, Direction::South)
                                } else if j == bi {
                                    last_link(tls[bi].subrange(0, kf), nms, Direction::South)
                                } else {
                                    None::<u16>
                                },
                        ),
                        east: Seq::new(
                            tls.len(),
                            |j: int|
                                if j < bi {
                                    last_link(tls[j], nms, Direction::East)
                                } else if j == bi {
                                    last_link(tls[bi].subrange(0, kf), nms, Direction::East)
                                } else {
                                    None::<u16>
                                },
                        ),
                        west: Seq::new(
                            tls.len(),
                            |j: int|
                                if j < bi {
                                    last_link(tls[j], nms, Direction::West)
                                } else if j == bi {
                                    last_link(tls[bi].subrange(0, kf), nms, Direction::West)
                                } else {
                                    None::<u16>
                                },
                        ),
                        mask: Seq::new(tls.len(), |c: int| 0u8),
                        names: Seq::new(
                            tls.len(),
                            |j: int|
                                if j <= bi {
                                    nms[j]
                                } else {
                                    Seq::<u8>::empty()
                                },
                        ),
                        count: Seq::new(tls.len(), |c: int| 0u32),
                        witness: Seq::new(tls.len(), |c: int| None::<u16>),
                        n: tls.len() as int,
                        ..old(self)@
                    })
                }))
            }),
            wf(final(self)@),
            final(self)@.m() == 0,
            final(self)@.rng == old(self)@.rng,
            final(self)@.max_moves == old(self)@.max_moves,
            final(self)@.cfg_ants == old(self)@.cfg_ants,
            final(self)@.cfg_map == old(self)@.cfg_map,
            final(self)@.cfg_seed == old(self)@.cfg_seed,
    {
        let token_lines = tokenize(content);
        let ghost tls = token_lines_from(content@, 0);
        let ghost nms = declared_names(tls);
        proof {
            lemma_token_lines_nonempty(content@, 0);
        }
        let n = token_lines.len();
        // first pass: every connection token must carry an equals sign
        // and a recognized direction
        let mut i: usize = 0;
        while i < n
            invariant
                i <= n,
                n == token_lines@.len(),
                token_lines.deep_view() == tls,
                tls == token_lines_from(content@, 0),
                forall|j: int| 0 <= j < tls.len() ==> #[trigger] tls[j].len() >= 1,
                syntax_err(tls, 0) == syntax_err(tls, i as int),
                *self == *old(self),
                wf(old(self)@),
                old(self)@.n == 0,
                old(self)@.m() == 0,
            decreases n - i,
        {
            let ghost t = tls[i as int];
            proof {
                assert(token_lines.deep_view()[i as int] == token_lines@[i as int].deep_view());
            }
            let mut k: usize = 1;
            while k < token_lines[i].len()
                invariant
                    1 <= k,
                    k <= t.len(),
                    i < n,
                    n == token_lines@.len(),
                    token_lines.deep_view() == tls,
                    tls == token_lines_from(content@, 0),
                    t == tls[i as int],
                    t.len() == token_lines@[i as int]@.len(),
                    line_syntax_err(t, 1) == line_syntax_err(t, k as int),
                    syntax_err(tls, 0) == syntax_err(tls, i as int),
                    *self == *old(self),
                    wf(old(self)@),
                    old(self)@.n == 0,
                    old(self)@.m() == 0,
                decreases t.len() - k,
            {
                proof {
                    assert(token_lines.deep_view()[i as int] == token_lines@[
                        i as int
                    ].deep_view());
                    assert(t[k as int] == token_lines@[i as int]@[k as int].deep_view());
                    assert(token_lines@[i as int]@[k as int].deep_view() =~= token_lines@[
                        i as int
                    ]@[k as int]@);
                }
                let tok: &Vec<u8> = &token_lines[i][k];
                let e = find_eq(tok);
                if e == tok.len() {
                    let bad = copy_range(tok, 0, tok.len());
                    proof {
                        assert(bad@ =~= t[k as int]);
                        assert(line_syntax_err(t, k as int) == Some(
                            SpecMapError::InvalidConnection(t[k as int]),
                        ));
                        assert(line_syntax_err(t, 1) is Some);
                        assert(syntax_err(tls, i as int) == line_syntax_err(t, 1));
                        assert(parse_err(tls) == Some(SpecMapError::InvalidConnection(t[k as int])));
                    }
                    return Err(MapError::InvalidConnection(bad));
                }
                let head = copy_range(tok, 0, e);
                proof {
                    assert(head@ == conn_head(t[k as int]));
                }
                match token_direction(&head) {
                    None => {
                        proof {
                            assert(line_syntax_err(t, k as int) == Some(
                                SpecMapError::InvalidDirection(conn_head(t[k as int])),
                            ));
                            assert(line_syntax_err(t, 1) is Some);
                            assert(syntax_err(tls, i as int) == line_syntax_err(t, 1));
                            assert(parse_err(tls) == Some(SpecMapError::InvalidDirection(
                                conn_head(t[k as int]),
                            )));
                        }
                        return Err(MapError::InvalidDirection(head));
                    },
                    Some(_) => {},
                }
                proof {
                    assert(line_syntax_err(t, k as int) == line_syntax_err(t, k + 1));
                }
                k = k + 1;
            }
            proof {
                assert(line_syntax_err(t, k as int) is None);
                assert(syntax_err(tls, i as int) == syntax_err(tls, i + 1));
            }
            i = i + 1;
        }
        proof {
            assert(syntax_err(tls, 0) is None);
        }
        if n > 65536 {
            return Err(MapError::TooManyColonies);
        }
        // second pass: no colony may be declared twice
        let mut di: usize = 0;
        while di < n
            invariant
                di <= n,
                n == token_lines@.len(),
                n <= 65536,
                token_lines.deep_view() == tls,
                tls == token_lines_from(content@, 0),
                nms == declared_names(tls),
                forall|j: int| 0 <= j < tls.len() ==> #[trigger] tls[j].len() >= 1,
                dup_err(nms, 0) == dup_err(nms, di as int),
                syntax_err(tls, 0) is None,
                *self == *old(self),
                wf(old(self)@),
                old(self)@.n == 0,
                old(self)@.m() == 0,
            decreases n - di,
        {
            proof {
                assert(token_lines.deep_view()[di as int] == token_lines@[di as int].deep_view());
                assert(token_lines@[di as int].deep_view().len() == token_lines@[di as int]@.len());
                assert(token_lines@[di as int]@.len() >= 1);
                assert(nms[di as int] == token_lines@[di as int]@[0].deep_view());
                assert(token_lines@[di as int]@[0].deep_view() =~= token_lines@[di as int]@[0]@);
            }
            let mut j: usize = 0;
            while j < di
                invariant
                    j <= di < n,
                    n == token_lines@.len(),
                    n <= 65536,
                    token_lines.deep_view() == tls,
                    tls == token_lines_from(content@, 0),
                    nms == declared_names(tls),
                    forall|q: int| 0 <= q < tls.len() ==> #[trigger] tls[q].len() >= 1,
                    nms[di as int] == token_lines@[di as int]@[0]@,
                    index_of_name(nms, nms[di as int], 0, di as int) == index_of_name(
                        nms,
                        nms[di as int],
                        j as int,
                        di as int,
                    ),
                    dup_err(nms, 0) == dup_err(nms, di as int),
                    syntax_err(tls, 0) is None,
                    *self == *old(self),
                    wf(old(self)@),
                    old(self)@.n == 0,
                    old(self)@.m() == 0,
                decreases di - j,
            {
                proof {
                    assert(token_lines.deep_view()[j as int] == token_lines@[
                        j as int
                    ].deep_view());
                    assert(token_lines@[j as int].deep_view().len() == token_lines@[
                        j as int
                    ]@.len());
                    assert(token_lines@[j as int]@.len() >= 1);
                    assert(token_lines.deep_view()[di as int] == token_lines@[
                        di as int
                    ].deep_view());
                    assert(token_lines@[di as int].deep_view().len() == token_lines@[
                        di as int
                    ]@.len());
                    assert(token_lines@[di as int]@.len() >= 1);
                    assert(nms[j as int] == token_lines@[j as int]@[0].deep_view());
                    assert(token_lines@[j as int]@[0].deep_view() =~= token_lines@[j as int]@[0]@);
                }
                if bytes_eq(&token_lines[j][0], &token_lines[di][0]) {
                    let dup = copy_range(&token_lines[di][0], 0, token_lines[di][0].len());
                    proof {
                        assert(dup@ =~= nms[di as int]);
                        assert(index_of_name(nms, nms[di as int], j as int, di as int) == j);
                        assert(dup_err(nms, di as int) == Some(
                            SpecMapError::DuplicateColony(nms[di as int]),
                        ));
                        assert(parse_err(tls) == Some(SpecMapError::DuplicateColony(
                            nms[di as int],
                        )));
                    }
                    return Err(MapError::DuplicateColony(dup));
                }
                proof {
                    assert(index_of_name(nms, nms[di as int], j as int, di as int)
                        == index_of_name(nms, nms[di as int], j + 1, di as int));
                }
                j = j + 1;
            }
            proof {
                assert(index_of_name(nms, nms[di as int], di as int, di as int) == di);
                assert(dup_err(nms, di as int) == dup_err(nms, di + 1));
            }
            di = di + 1;
        }
        proof {
            assert(dup_err(nms, 0) is None);
        }
        self.initialize_with_capacity(n);
        let ghost built = self@;
        proof {
            lemma_syntax_ok_lines(tls, 0);
        }
        // third pass: set names and links, resolving each neighbor name
        let mut bi: usize = 0;
        while bi < n
            invariant
                bi <= n,
                n == token_lines@.len(),
                n <= 65536,
                token_lines.deep_view() == tls,
                nms == declared_names(tls),
                forall|j: int| 0 <= j < tls.len() ==> #[trigger] tls[j].len() >= 1,
                forall|j: int| 0 <= j < tls.len() ==> line_syntax_err(#[trigger] tls[j], 1) is None,
                tls == token_lines_from(content@, 0),
                syntax_err(tls, 0) is None,
                dup_err(nms, 0) is None,
                wf(self@),
                self@.n == n,
                self@.m() == 0,
                self@.valid == built.valid,
                self@.mask == built.mask,
                self@.count == built.count,
                self@.witness == built.witness,
                self@.rng == built.rng,
                self@.max_moves == built.max_moves,
                self@.cfg_ants == built.cfg_ants,
                self@.cfg_map == built.cfg_map,
                self@.cfg_seed == built.cfg_seed,
                self@.pos == built.pos,
                self@.alive == built.alive,
                self@.moves == built.moves,
                built == (SimView {
                    valid: Seq::new(n as nat, |c: int| true),
                    north: Seq::new(n as nat, |c: int| None::<u16>),
                    south: Seq::new(n as nat, |c: int| None::<u16>),
                    east: Seq::new(n as nat, |c: int| None::<u16>),
                    west: Seq::new(n as nat, |c: int| None::<u16>),
                    mask: Seq::new(n as nat, |c: int| 0u8),
                    names: Seq::new(n as nat, |c: int| Seq::<u8>::empty()),
                    count: Seq::new(n as nat, |c: int| 0u32),
                    witness: Seq::new(n as nat, |c: int| None::<u16>),
                    n: n as int,
                    ..old(self)@
                }),
                forall|j: int| 0 <= j < bi ==> #[trigger] self@.names[j] == nms[j],
                forall|j: int| bi <= j < n ==> #[trigger] self@.names[j] == Seq::<u8>::empty(),
                forall|j: int|
                    0 <= j < bi ==> #[trigger] self@.north[j] == last_link(
                        tls[j],
                        nms,
                        Direction::North,
                    ) && self@.south[j] == last_link(tls[j], nms, Direction::South) && self@.east[j]
                        == last_link(tls[j], nms, Direction::East) && self@.west[j] == last_link(
                        tls[j],
                        nms,
                        Direction::West,
                    ),
                forall|j: int|
                    bi <= j < n ==> #[trigger] self@.north[j] is None && self@.south[j] is None
                        && self@.east[j] is None && self@.west[j] is None,
                unknown_err(tls, nms, 0) == unknown_err(tls, nms, bi as int),
                unknown_line(tls, nms, 0) == unknown_line(tls, nms, bi as int),
            decreases n - bi,
        {
            let ghost t = tls[bi as int];
            proof {
                assert(token_lines.deep_view()[bi as int] == token_lines@[bi as int].deep_view());
                assert(t[0] == token_lines@[bi as int]@[0].deep_view());
                assert(token_lines@[bi as int]@[0].deep_view() =~= token_lines@[bi as int]@[0]@);
            }
            let name = copy_range(&token_lines[bi][0], 0, token_lines[bi][0].len());
            proof {
                assert(name@ =~= nms[bi as int]);
            }
            self.set_colony_name(bi as ColonyId, name);
            let mut k: usize = 1;
            while k < token_lines[bi].len()
                invariant
                    1 <= k,
                    k <= t.len(),
                    bi < n,
                    n == token_lines@.len(),
                    n <= 65536,
                    token_lines.deep_view() == tls,
                    nms == declared_names(tls),
                    t == tls[bi as int],
                    t.len() == token_lines@[bi as int]@.len(),
                    forall|j: int| 0 <= j < tls.len() ==> #[trigger] tls[j].len() >= 1,
                    line_syntax_err(t, 1) is None,
                    tls == token_lines_from(content@, 0),
                    syntax_err(tls, 0) is None,
                    dup_err(nms, 0) is None,
                    unknown_err(tls, nms, 0) == unknown_err(tls, nms, bi as int),
                    wf(self@),
                    self@.n == n,
                    self@.m() == 0,
                    self@.valid == built.valid,
                    self@.mask == built.mask,
                    self@.count == built.count,
                    self@.witness == built.witness,
                    self@.rng == built.rng,
                    self@.max_moves == built.max_moves,
                    self@.cfg_ants == built.cfg_ants,
                    self@.cfg_map == built.cfg_map,
                    self@.cfg_seed == built.cfg_seed,
                    self@.pos == built.pos,
                    self@.alive == built.alive,
                    self@.moves == built.moves,
                    built == (SimView {
                        valid: Seq::new(n as nat, |c: int| true),
                        north: Seq::new(n as nat, |c: int| None::<u16>),
                        south: Seq::new(n as nat, |c: int| None::<u16>),
                        east: Seq::new(n as nat, |c: int| None::<u16>),
                        west: Seq::new(n as nat, |c: int| None::<u16>),
                        mask: Seq::new(n as nat, |c: int| 0u8),
                        names: Seq::new(n as nat, |c: int| Seq::<u8>::empty()),
                        count: Seq::new(n as nat, |c: int| 0u32),
                        witness: Seq::new(n as nat, |c: int| None::<u16>),
                        n: n as int,
                        ..old(self)@
                    }),
                    forall|j: int| 0 <= j < bi ==> #[trigger] self@.names[j] == nms[j],
                    self@.names[bi as int] == nms[bi as int],
                    forall|j: int|
                        bi < j < n ==> #[trigger] self@.names[j] == Seq::<u8>::empty(),
                    forall|j: int|
                        0 <= j < bi ==> #[trigger] self@.north[j] == last_link(
                            tls[j],
                            nms,
                            Direction::North,
                        ) && self@.south[j] == last_link(tls[j], nms, Direction::South)
                            && self@.east[j] == last_link(tls[j], nms, Direction::East)
                            && self@.west[j] == last_link(tls[j], nms, Direction::West),
                    forall|j: int|
                        bi < j < n ==> #[trigger] self@.north[j] is None && self@.south[j] is None
                            && self@.east[j] is None && self@.west[j] is None,
                    self@.north[bi as int] == last_link(
                        t.subrange(0, k as int),
                        nms,
                        Direction::North,
                    ),
                    self@.south[bi as int] == last_link(
                        t.subrange(0, k as int),
                        nms,
                        Direction::South,
                    ),
                    self@.east[bi as int] == last_link(
                        t.subrange(0, k as int),
                        nms,
                        Direction::East,
                    ),
                    self@.west[bi as int] == last_link(
                        t.subrange(0, k as int),
                        nms,
                        Direction::West,
                    ),
                    line_unknown_err(t, nms, 1) == line_unknown_err(t, nms, k as int),
                    unknown_token(t, nms, 1) == unknown_token(t, nms, k as int),
                    unknown_line(tls, nms, 0) == unknown_line(tls, nms, bi as int),
                decreases t.len() - k,
            {
                proof {
                    assert(token_lines.deep_view()[bi as int] == token_lines@[
                        bi as int
                    ].deep_view());
                    assert(t[k as int] == token_lines@[bi as int]@[k as int].deep_view());
                    assert(token_lines@[bi as int]@[k as int].deep_view() =~= token_lines@[
                        bi as int
                    ]@[k as int]@);
                    lemma_eq_pos_bounds(t[k as int], 0);
                    lemma_line_syntax_ok(t, 1);
                }
                let tok: &Vec<u8> = &token_lines[bi][k];
                let e = find_eq(tok);
                let head = copy_range(tok, 0, e);
                proof {
                    assert(head@ == conn_head(t[k as int]));
                }
                let direction = match token_direction(&head) {
                    Some(d) => d,
                    None => {
                        proof {
                            assert(token_dir(conn_head(t[k as int])) is Some);
                            assert(false);
                        }
                        return Err(MapError::TooManyColonies);
                    },
                };
                let nbname = copy_range(tok, e + 1, tok.len());
                proof {
                    assert(nbname@ == conn_tail(t[k as int]));
                }
                match find_name(&token_lines, &nbname) {
                    None => {
                        proof {
                            lemma_index_of_name_bounds(
                                nms,
                                conn_tail(t[k as int]),
                                0,
                                nms.len() as int,
                            );
                            assert(index_of_name(nms, conn_tail(t[k as int]), 0, nms.len() as int)
                                == nms.len());
                            assert(line_unknown_err(t, nms, k as int) == Some(
                                SpecMapError::UnknownNeighbor(conn_tail(t[k as int])),
                            ));
                            assert(line_unknown_err(t, nms, 1) is Some);
                            assert(unknown_err(tls, nms, bi as int) == line_unknown_err(t, nms, 1));
                            assert(parse_err(tls) == Some(SpecMapError::UnknownNeighbor(
                                conn_tail(t[k as int]),
                            )));
                            assert(unknown_token(t, nms, k as int) == k as int);
                            assert(unknown_line(tls, nms, bi as int) == bi as int);
                            let bi_s = unknown_line(tls, nms, 0);
                            let kf = unknown_token(tls[bi_s], nms, 1);
                            assert(bi_s == bi as int && kf == k as int);
                            assert(final(self)@ =~~= (SimView {
                                valid: Seq::new(tls.len(), |c: int| true),
                                north: Seq::new(
                                    tls.len(),
                                    |j: int|
                                        if j < bi_s {
                                            last_link(tls[j], nms, Direction::North)
                                        } else if j == bi_s {
                                            last_link(
                                                tls[bi_s].subrange(0, kf),
                                                nms,
                                                Direction::North,
                                            )
                                        } else {
                                            None::<u16>
                                        },
                                ),
                                south: Seq::new(
                                    tls.len(),
                                    |j: int|
                                        if j < bi_s {
                                            last_link(tls[j], nms, Direction::South)
                                        } else if j == bi_s {
                                            last_link(
                                                tls[bi_s].subrange(0, kf),
                                                nms,
                                                Direction::South,
                                            )
                                        } else {
                                            None::<u16>
                                        },
                                ),
                                east: Seq::new(
                                    tls.len(),
                                    |j: int|
                                        if j < bi_s {
                                            last_link(tls[j], nms, Direction::East)
                                        } else if j == bi_s {
                                            last_link(
                                                tls[bi_s].subrange(0, kf),
                                                nms,
                                                Direction::East,
                                            )
                                        } else {
                                            None::<u16>
                                        },
                                ),
                                west: Seq::new(
                                    tls.len(),
                                    |j: int|
                                        if j < bi_s {
                                            last_link(tls[j], nms, Direction::West)
                                        } else if j == bi_s {
                                            last_link(
                                                tls[bi_s].subrange(0, kf),
                                                nms,
                                                Direction::West,
                                            )
                                        } else {
                                            None::<u16>
                                        },
                                ),
                                mask: Seq::new(tls.len(), |c: int| 0u8),
                                names: Seq::new(
                                    tls.len(),
                                    |j: int|
                                        if j <= bi_s {
                                            nms[j]
                                        } else {
                                            Seq::<u8>::empty()
                                        },
                                ),
                                count: Seq::new(tls.len(), |c: int| 0u32),
                                witness: Seq::new(tls.len(), |c: int| None::<u16>),
                                n: tls.len() as int,
                                ..old(self)@
                            }));
                        }
                        return Err(MapError::UnknownNeighbor(nbname));
                    },
                    Some(neighbor_id) => {
                        let ghost pre = self@;
                        proof {
                            assert(token_lines.deep_view().len() == token_lines@.len());
                            assert(nms.len() == n as int);
                            lemma_index_of_name_bounds(
                                nms,
                                conn_tail(t[k as int]),
                                0,
                                nms.len() as int,
                            );
                            assert((neighbor_id as int) < n as int);
                        }
                        self.set_neighbor(bi as ColonyId, direction, neighbor_id);
                        proof {
                            assert(self@ == match direction {
                                Direction::North => SimView {
                                    north: pre.north.update(bi as int, Some(neighbor_id)),
                                    ..pre
                                },
                                Direction::South => SimView {
                                    south: pre.south.update(bi as int, Some(neighbor_id)),
                                    ..pre
                                },
                                Direction::East => SimView {
                                    east: pre.east.update(bi as int, Some(neighbor_id)),
                                    ..pre
                                },
                                Direction::West => SimView {
                                    west: pre.west.update(bi as int, Some(neighbor_id)),
                                    ..pre
                                },
                            });
                            let p1 = t.subrange(0, k as int + 1);
                            assert(p1.len() == k as int + 1);
                            assert(p1[k as int] == t[k as int]);
                            assert(p1.drop_last() =~= t.subrange(0, k as int));
                            assert(eq_pos(t[k as int], 0) < t[k as int].len());
                            assert(token_dir(conn_head(t[k as int])) == Some(direction));
                            assert(index_of_name(nms, conn_tail(t[k as int]), 0, nms.len() as int)
                                < nms.len());
                            assert(last_link(p1, nms, direction) == Some(neighbor_id));
                            if direction != Direction::North {
                                assert(last_link(p1, nms, Direction::North) == last_link(
                                    t.subrange(0, k as int),
                                    nms,
                                    Direction::North,
                                ));
                            }
                            if direction != Direction::South {
                                assert(last_link(p1, nms, Direction::South) == last_link(
                                    t.subrange(0, k as int),
                                    nms,
                                    Direction::South,
                                ));
                            }
                            if direction != Direction::East {
                                assert(last_link(p1, nms, Direction::East) == last_link(
                                    t.subrange(0, k as int),
                                    nms,
                                    Direction::East,
                                ));
                            }
                            if direction != Direction::West {
                                assert(last_link(p1, nms, Direction::West) == last_link(
                                    t.subrange(0, k as int),
                                    nms,
                                    Direction::West,
                                ));
                            }
                            assert(self@.north[bi as int] == last_link(p1, nms, Direction::North));
                            assert(self@.south[bi as int] == last_link(p1, nms, Direction::South));
                            assert(self@.east[bi as int] == last_link(p1, nms, Direction::East));
                            assert(self@.west[bi as int] == last_link(p1, nms, Direction::West));
                            assert(line_unknown_err(t, nms, k as int) == line_unknown_err(
                                t,
                                nms,
                                k + 1,
                            ));
                            assert(unknown_token(t, nms, k as int) == unknown_token(
                                t,
                                nms,
                                k + 1,
                            ));
                        }
                    },
                }
                k = k + 1;
            }
            proof {
                assert(t.subrange(0, k as int) =~= t);
                assert(line_unknown_err(t, nms, k as int) is None);
                assert(unknown_err(tls, nms, bi as int) == unknown_err(tls, nms, bi + 1));
                assert(unknown_line(tls, nms, bi as int) == unknown_line(tls, nms, bi + 1));
            }
            bi = bi + 1;
        }
        proof {
            assert(unknown_err(tls, nms, 0) is None);
        }
        let ghost linked = self@;
        self.update_all_valid_directions();
        proof {
            let base = SimView {
                valid: Seq::new(tls.len(), |c: int| true),
                north: Seq::new(tls.len(), |c: int| last_link(tls[c], nms, Direction::North)),
                south: Seq::new(tls.len(), |c: int| last_link(tls[c], nms, Direction::South)),
                east: Seq::new(tls.len(), |c: int| last_link(tls[c], nms, Direction::East)),
                west: Seq::new(tls.len(), |c: int| last_link(tls[c], nms, Direction::West)),
                mask: Seq::new(tls.len(), |c: int| 0u8),
                names: nms,
                count: Seq::new(tls.len(), |c: int| 0u32),
                witness: Seq::new(tls.len(), |c: int| None::<u16>),
                n: tls.len() as int,
                ..old(self)@
            };
            assert(linked =~~= base);
            assert(final(self)@ =~~= (SimView {
                mask: Seq::new(tls.len(), |c: int| spec_mask(base, c)),
                ..base
            }));
            assert forall|c: int| 0 <= c < final(self)@.n implies crate::state::occ(final(self)@, c)
                == 0 by {
                assert(crate::state::occ_below(final(self)@.alive, final(self)@.pos, c, 0) == 0);
            }
            assert(tallied(final(self)@));
        }
        Ok(())
    }
}

} // verus!
