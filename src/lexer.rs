use vstd::prelude::*;
use vstd::string::StringSliceAdditionalSpecFns;

use crate::error::{Failure, LexError};
use crate::position::{advance, cursor_fits, lemma_walk_bounds, step_loc, walk, Cursor, Location};
use crate::scan::{
    delimited_scan, ident_at, ident_end, is_digit, is_exp_marker, is_ident_char, is_sign,
    is_space, keyword_at, lex_identifier, lex_keyword, lex_numeric, lex_string, lex_symbol,
    numeric_end, numeric_scan, delim_at, delimiter_text, symbol_at, to_lower,
};
use crate::text::{read_bytes, source_text, text_of_bytes};
use crate::token::{keyword_text, Keyword, Lexeme, Token, TokenKind};

verus! {

/// What the recognizers find at an offset.
pub enum Scan {
    NoMatch,
    Unterminated,
    Found { value: Seq<char>, kind: TokenKind, end: int },
}

/// The first recognizer that applies at `p`, tried in the order keyword,
/// symbol, string, numeric, identifier.
pub open spec fn scan_at(s: Seq<char>, p: int) -> Scan {
    if exists|k| keyword_at(s, p, k) {
        let k = choose|k| keyword_at(s, p, k);
        Scan::Found { value: keyword_text(k), kind: TokenKind::Keyword, end: p + keyword_text(k).len() }
    } else if symbol_at(s, p) {
        Scan::Found { value: seq![s[p]], kind: TokenKind::Symbol, end: p + 1 }
    } else if delim_at(s, p, delimiter_text('\'')) {
        match delimited_scan(s, p + 1, delimiter_text('\''), seq![]) {
            Some((e, v)) => Scan::Found { value: text_of_bytes(v), kind: TokenKind::StringLiteral, end: e },
            None => Scan::Unterminated,
        }
    } else if numeric_end(s, p) is Some {
        let e = numeric_end(s, p)->Some_0;
        Scan::Found { value: s.subrange(p, e), kind: TokenKind::NumericLiteral, end: e }
    } else if ident_at(s, p) {
        let e = ident_end(s, p + 1);
        Scan::Found { value: s.subrange(p, e), kind: TokenKind::Identifier, end: e }
    } else {
        Scan::NoMatch
    }
}

/// A token together with the offsets it covers in the buffer.
pub struct Span {
    pub lexeme: Lexeme,
    pub start: int,
    pub end: int,
}

/// Lexing from offset `p` at location `loc`, after the spans `acc`: skip
/// whitespace, take the first recognizer that applies, repeat until the end.
pub open spec fn lex_from(s: Seq<char>, p: int, loc: Location, acc: Seq<Span>) -> Result<Seq<Span>, Failure>
    decreases s.len() - p,
    via lex_from_decreases
{
    if p < 0 || p >= s.len() {
        Ok(acc)
    } else if is_space(s[p]) {
        lex_from(s, p + 1, step_loc(loc, s[p]), acc)
    } else {
        match scan_at(s, p) {
            Scan::Found { value, kind, end } => lex_from(
                s,
                end,
                walk(loc, s.subrange(p, end)),
                acc.push(Span { lexeme: Lexeme { value, kind, loc }, start: p, end }),
            ),
            Scan::Unterminated => Err(Failure::Unterminated { loc }),
            Scan::NoMatch => Err(
                Failure::Unmatched {
                    loc,
                    after: if acc.len() == 0 {
                        None
                    } else {
                        Some(acc.last().lexeme.value)
                    },
                },
            ),
        }
    }
}

#[via_fn]
proof fn lex_from_decreases(s: Seq<char>, p: int, loc: Location, acc: Seq<Span>) {
    if 0 <= p < s.len() {
        lemma_scan_advances(s, p);
    }
}

/// Where the first line starts.
pub open spec fn start_loc() -> Location {
    Location { line: 1, col: 1 }
}

/// The spans that lexing `s` produces, or why it fails.
pub open spec fn lex_spans(s: Seq<char>) -> Result<Seq<Span>, Failure> {
    lex_from(s, 0, start_loc(), seq![])
}

/// The tokens that lexing `s` produces, or why it fails.
pub open spec fn lex_result(s: Seq<char>) -> Result<Seq<Lexeme>, Failure> {
    match lex_spans(s) {
        Ok(spans) => Ok(spans.map_values(|x: Span| x.lexeme)),
        Err(f) => Err(f),
    }
}

pub(crate) proof fn lemma_numeric_scan_advances(s: Seq<char>, i: int, period: bool, exp: bool)
    requires
        0 <= i <= s.len(),
    ensures
        numeric_scan(s, i, period, exp) matches Some(e) ==> i <= e <= s.len(),
    decreases s.len() - i,
{
    if i < s.len() {
        if s[i] == '.' {
            if !period {
                lemma_numeric_scan_advances(s, i + 1, true, exp);
            }
        } else if is_exp_marker(s[i]) {
            if !exp && i + 1 < s.len() {
                if is_sign(s[i + 1]) {
                    lemma_numeric_scan_advances(s, i + 2, true, true);
                } else {
                    lemma_numeric_scan_advances(s, i + 1, true, true);
                }
            }
        } else if is_digit(s[i]) {
            lemma_numeric_scan_advances(s, i + 1, period, exp);
        }
    }
}

proof fn lemma_delimited_scan_advances(s: Seq<char>, i: int, dl: Seq<char>, acc: Seq<char>)
    requires
        0 <= i,
    ensures
        delimited_scan(s, i, dl, acc) matches Some((e, v)) ==> i < e <= s.len(),
    decreases s.len() - i,
{
    if dl.len() > 0 && i < s.len() {
        if delim_at(s, i, dl) {
            if delim_at(s, i + dl.len(), dl) {
                lemma_delimited_scan_advances(s, i + 2 * dl.len(), dl, acc + dl);
            }
        } else {
            lemma_delimited_scan_advances(s, i + 1, dl, acc.push(s[i]));
        }
    }
}

pub(crate) proof fn lemma_ident_end_bounds(s: Seq<char>, i: int)
    requires
        0 <= i <= s.len(),
    ensures
        i <= ident_end(s, i) <= s.len(),
    decreases s.len() - i,
{
    if i < s.len() && is_ident_char(s[i]) {
        lemma_ident_end_bounds(s, i + 1);
    }
}

/// A token found at `p` covers at least one character and stays in the buffer.
pub proof fn lemma_scan_advances(s: Seq<char>, p: int)
    requires
        0 <= p < s.len(),
    ensures
        scan_at(s, p) matches Scan::Found { end, .. } ==> p < end <= s.len(),
{
    if exists|k| keyword_at(s, p, k) {
        let k = choose|k| keyword_at(s, p, k);
        crate::scan::lemma_keyword_letters(k);
    } else if symbol_at(s, p) {
    } else if delim_at(s, p, delimiter_text('\'')) {
        lemma_delimited_scan_advances(s, p + 1, delimiter_text('\''), seq![]);
    } else if numeric_end(s, p) is Some {
        lemma_numeric_scan_advances(s, p + 1, s[p] == '.', false);
    } else if ident_at(s, p) {
        lemma_ident_end_bounds(s, p + 1);
    }
}

/// Two keywords that both stand at `p` are spelled alike.
pub proof fn lemma_keyword_unique(s: Seq<char>, p: int, k1: Keyword, k2: Keyword)
    requires
        keyword_at(s, p, k1),
        keyword_at(s, p, k2),
    ensures
        keyword_text(k1) == keyword_text(k2),
{
    let w1 = keyword_text(k1);
    let w2 = keyword_text(k2);
    crate::scan::lemma_keyword_letters(k1);
    crate::scan::lemma_keyword_letters(k2);
    if w1.len() < w2.len() {
        let q = p + w1.len();
        assert(to_lower(s[p + w1.len()]) == w2[w1.len() as int]);
        assert(is_ident_char(s[q]));
    } else if w2.len() < w1.len() {
        let q = p + w2.len();
        assert(to_lower(s[p + w2.len()]) == w1[w2.len() as int]);
        assert(is_ident_char(s[q]));
    } else {
        assert forall|j: int| 0 <= j < w1.len() implies w1[j] == w2[j] by {
            assert(to_lower(s[p + j]) == w1[j]);
            assert(to_lower(s[p + j]) == w2[j]);
        }
        assert(w1 =~= w2);
    }
}

/// A cursor moved forward along the buffer from one that fits still fits.
proof fn lemma_fits_after(s: Seq<char>, ic: Cursor, c: Cursor)
    requires
        cursor_fits(s, ic),
        ic.pointer <= c.pointer <= s.len(),
        c.loc == walk(ic.loc, s.subrange(ic.pointer as int, c.pointer as int)),
    ensures
        cursor_fits(s, c),
{
    lemma_walk_bounds(ic.loc, s.subrange(ic.pointer as int, c.pointer as int));
}

/// Appends a token read from `cur` to `end` and keeps the loop's picture in step.
proof fn lemma_push_span(
    s: Seq<char>,
    cur: Cursor,
    end: Cursor,
    t: Token,
    tokens: Seq<Token>,
    spans: Seq<Span>,
)
    requires
        tokens.map_values(|x: Token| x@) == spans.map_values(|x: Span| x.lexeme),
    ensures
        tokens.push(t).map_values(|x: Token| x@) == spans.push(
            Span { lexeme: t@, start: cur.pointer as int, end: end.pointer as int },
        ).map_values(|x: Span| x.lexeme),
{
    let a = tokens.push(t).map_values(|x: Token| x@);
    let b = spans.push(Span { lexeme: t@, start: cur.pointer as int, end: end.pointer as int }).map_values(
        |x: Span| x.lexeme,
    );
    assert(a =~= tokens.map_values(|x: Token| x@).push(t@));
    assert(b =~= spans.map_values(|x: Span| x.lexeme).push(t@));
    assert(a =~= b);
}

/// Splits `source` into tokens: whitespace (space, tab, newline) separates them,
/// and at each position the first of keyword, symbol, string, numeric literal and
/// identifier that applies is taken. Fails where none applies, or where a string
/// literal is never closed.
pub fn lex(source: String) -> (r: Result<Vec<Token>, LexError>)
    requires
        read_bytes(source@).len() < usize::MAX,
    ensures
        match r {
            Ok(tokens) => lex_result(read_bytes(source@)) == Ok::<Seq<Lexeme>, Failure>(
                tokens@.map_values(|t: Token| t@),
            ),
            Err(e) => lex_result(read_bytes(source@)) == Err::<Seq<Lexeme>, Failure>(e@),
        },
{
    let input = source.as_str();
    let ghost s = source_text(input);
    let bytes = input.as_bytes();
    let len = bytes.len();
    let mut tokens: Vec<Token> = Vec::new();
    let mut cur = Cursor { pointer: 0, loc: Location { line: 1, col: 1 } };
    let ghost mut spans: Seq<Span> = seq![];
    loop
        invariant
            s == source_text(input),
            s == read_bytes(source@),
            bytes@ == input.spec_bytes(),
            len == s.len(),
            len < usize::MAX,
            cursor_fits(s, cur),
            lex_spans(s) == lex_from(s, cur.pointer as int, cur.loc, spans),
            tokens@.map_values(|t: Token| t@) == spans.map_values(|x: Span| x.lexeme),
        decreases len - cur.pointer,
    {
        if cur.pointer >= len {
            assert(tokens@.map_values(|t: Token| t@) == spans.map_values(|x: Span| x.lexeme));
            return Ok(tokens);
        }
        let c = bytes[cur.pointer] as char;
        if c == ' ' || c == '\t' || c == '\n' {
            let next = advance(cur, c);
            proof {
                assert(s.subrange(cur.pointer as int, next.pointer as int) =~= seq![c]);
                assert(walk(cur.loc, seq![c]) == step_loc(walk(cur.loc, seq![c].drop_last()), c));
                assert(seq![c].drop_last() =~= Seq::<char>::empty());
                lemma_fits_after(s, cur, next);
            }
            cur = next;
            continue;
        }
        proof {
            lemma_scan_advances(s, cur.pointer as int);
        }
        let found = match lex_keyword(input, cur) {
            Some(x) => {
                proof {
                    let k = choose|k| keyword_at(s, cur.pointer as int, k);
                    let k2 = choose|k2: Keyword| {
                        &&& keyword_at(s, cur.pointer as int, k2)
                        &&& x.0.value@ == keyword_text(k2)
                        &&& x.1.pointer == cur.pointer + keyword_text(k2).len()
                        &&& crate::scan::spans(s, cur, x.1, x.0@, TokenKind::Keyword)
                    };
                    lemma_keyword_unique(s, cur.pointer as int, k, k2);
                }
                Some(x)
            },
            None => match lex_symbol(input, cur) {
                Some(x) => Some(x),
                None => match lex_string(input, cur) {
                    Err(e) => return Err(e),
                    Ok(Some(x)) => {
                        proof {
                            crate::text::lemma_text_of_read_bytes(x.0.value@);
                        }
                        Some(x)
                    },
                    Ok(None) => match lex_numeric(input, cur) {
                        Some(x) => Some(x),
                        None => lex_identifier(input, cur),
                    },
                },
            },
        };
        match found {
            Some((token, next)) => {
                proof {
                    lemma_fits_after(s, cur, next);
                    lemma_push_span(s, cur, next, token, tokens@, spans);
                    spans = spans.push(Span { lexeme: token@, start: cur.pointer as int, end: next.pointer as int });
                }
                tokens.push(token);
                cur = next;
            },
            None => {
                let n = tokens.len();
                proof {
                    assert(tokens@.map_values(|t: Token| t@).len() == tokens@.len());
                    assert(spans.map_values(|x: Span| x.lexeme).len() == spans.len());
                }
                let after = if n == 0 {
                    None
                } else {
                    proof {
                        assert(tokens@.map_values(|t: Token| t@)[n - 1] == spans.map_values(|x: Span| x.lexeme)[n - 1]);
                        assert(tokens@[n - 1]@ == spans.last().lexeme);
                    }
                    Some(tokens[n - 1].value.clone())
                };
                let e = LexError::Unmatched { loc: cur.loc, after };
                proof {
                    assert(scan_at(s, cur.pointer as int) == Scan::NoMatch);
                    assert(lex_from(s, cur.pointer as int, cur.loc, spans) == Err::<Seq<Span>, Failure>(e@));
                }
                return Err(e);
            },
        }
    }
}

} // verus!
