use vstd::prelude::*;

verus! {

/// A 1-indexed line and column in the source text.
#[derive(Debug, Clone, Copy, PartialEq, Eq, Structural)]
pub struct Location {
    pub line: usize,
    pub col: usize,
}

/// A scan position: a byte offset into the buffer and the location of that byte.
#[derive(Debug, Clone, Copy, PartialEq, Eq, Structural)]
pub struct Cursor {
    pub pointer: usize,
    pub loc: Location,
}

/// The location that follows a character read at `loc`: a newline starts the
/// next line, anything else moves one column right.
pub open spec fn step_loc(loc: Location, c: char) -> Location {
    if c == '\n' {
        Location { line: (loc.line + 1) as usize, col: 1 }
    } else {
        Location { line: loc.line, col: (loc.col + 1) as usize }
    }
}

/// The location reached after reading `s` from `loc`.
pub open spec fn walk(loc: Location, s: Seq<char>) -> Location
    decreases s.len(),
{
    if s.len() == 0 {
        loc
    } else {
        step_loc(walk(loc, s.drop_last()), s.last())
    }
}

/// Reading `n` more characters from `loc` cannot overflow either coordinate.
pub open spec fn room_for(loc: Location, n: int) -> bool {
    loc.line + n <= usize::MAX && loc.col + n <= usize::MAX
}

/// `a` comes no later than `b`, line first, then column.
pub open spec fn loc_le(a: Location, b: Location) -> bool {
    a.line < b.line || (a.line == b.line && a.col <= b.col)
}

/// A cursor that stands inside `s` (or at its end) with room to read the rest.
pub open spec fn cursor_fits(s: Seq<char>, c: Cursor) -> bool {
    c.pointer <= s.len() && room_for(c.loc, s.len() - c.pointer)
}

/// Walking never overflows when there is room, and only moves forward.
pub proof fn lemma_walk_bounds(loc: Location, s: Seq<char>)
    requires
        room_for(loc, s.len() as int),
    ensures
        walk(loc, s).line <= loc.line + s.len(),
        walk(loc, s).col <= loc.col + s.len(),
        loc_le(loc, walk(loc, s)),
    decreases s.len(),
{
    if s.len() > 0 {
        lemma_walk_bounds(loc, s.drop_last());
    }
}

/// Walking one character further is one more step.
pub proof fn lemma_walk_extend(loc: Location, s: Seq<char>, a: int, p: int)
    requires
        0 <= a <= p < s.len(),
    ensures
        walk(loc, s.subrange(a, p + 1)) == step_loc(walk(loc, s.subrange(a, p)), s[p]),
{
    assert(s.subrange(a, p + 1).drop_last() =~= s.subrange(a, p));
}

/// Walking over two pieces in turn is walking over both together.
pub proof fn lemma_walk_concat(loc: Location, s: Seq<char>, t: Seq<char>)
    ensures
        walk(walk(loc, s), t) == walk(loc, s + t),
    decreases t.len(),
{
    if t.len() > 0 {
        lemma_walk_concat(loc, s, t.drop_last());
        assert((s + t).drop_last() =~= s + t.drop_last());
    } else {
        assert(s + t =~= s);
    }
}

/// Moves a cursor over one character.
pub fn advance(c: Cursor, ch: char) -> (r: Cursor)
    requires
        c.pointer < usize::MAX,
        c.loc.line < usize::MAX,
        c.loc.col < usize::MAX,
    ensures
        r.pointer == c.pointer + 1,
        r.loc == step_loc(c.loc, ch),
{
    if ch == '\n' {
        Cursor { pointer: c.pointer + 1, loc: Location { line: c.loc.line + 1, col: 1 } }
    } else {
        Cursor { pointer: c.pointer + 1, loc: Location { line: c.loc.line, col: c.loc.col + 1 } }
    }
}

} // verus!
