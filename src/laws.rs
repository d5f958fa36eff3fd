use vstd::prelude::*;

use crate::lexer::{lemma_scan_advances, lex_from, lex_spans, lex_result, scan_at, start_loc, Scan, Span};
use crate::position::{lemma_walk_bounds, lemma_walk_concat, lemma_walk_extend, loc_le, room_for, step_loc, walk, Location};
use crate::lexer::{lemma_ident_end_bounds, lemma_numeric_scan_advances};
use crate::lexer::lemma_keyword_unique;
use crate::scan::{
    ident_end, is_digit, is_exp_marker, is_ident_char, is_sign, is_space, keyword_at,
    lemma_keyword_letters, lemma_quote_text, numeric_end, numeric_scan, delim_at, delimiter_text, symbol_at, to_lower,
};
use crate::token::keyword_text;
use crate::error::Failure;
use crate::token::{Lexeme, TokenKind};
use crate::text::read_bytes;

verus! {

/// ASCII text reads the same character by character and byte by byte.
pub proof fn lemma_ascii_reads_as_is(t: Seq<char>)
    requires
        vstd::utf8::is_ascii_chars(t),
    ensures
        read_bytes(t) == t,
{
    vstd::utf8::is_ascii_chars_encode_utf8(t);
    assert forall|i: int| 0 <= i < t.len() implies read_bytes(t)[i] == t[i] by {
        assert('\0' <= t[i] <= '\u{7f}');
    }
    assert(read_bytes(t) =~= t);
}

proof fn lemma_digit_run(d: Seq<char>, i: int)
    requires
        0 <= i <= d.len(),
        forall|j: int| 0 <= j < d.len() ==> is_digit(#[trigger] d[j]),
    ensures
        numeric_scan(d, i, false, false) == Some(d.len() as int),
    decreases d.len() - i,
{
    if i < d.len() {
        lemma_digit_run(d, i + 1);
    }
}

/// A non-empty run of decimal digits is read whole as one numeric literal,
/// whose value is the run itself.
pub proof fn lemma_digits_are_numeric(d: Seq<char>)
    requires
        d.len() > 0,
        forall|j: int| 0 <= j < d.len() ==> is_digit(#[trigger] d[j]),
    ensures
        read_bytes(d) == d,
        numeric_end(d, 0) == Some(d.len() as int),
        d.subrange(0, d.len() as int) == d,
{
    lemma_ascii_reads_as_is(d);
    lemma_digit_run(d, 1);
    assert(d.subrange(0, d.len() as int) =~= d);
}

/// Spans that follow each other: each covers at least one character, none
/// overlaps a later one, and their locations never go back.
pub open spec fn in_order(spans: Seq<Span>) -> bool {
    &&& forall|i: int| 0 <= i < spans.len() ==> #[trigger] spans[i].start < spans[i].end
    &&& forall|i: int, j: int| 0 <= i < j < spans.len() ==> #[trigger] spans[i].end <= #[trigger] spans[j].start
    &&& forall|i: int| 0 <= i < spans.len() - 1 ==> loc_le(#[trigger] spans[i].lexeme.loc, spans[i + 1].lexeme.loc)
}

/// Each span's location is the line and column of its first offset.
pub open spec fn located(s: Seq<char>, spans: Seq<Span>) -> bool {
    forall|i: int|
        0 <= i < spans.len() ==> (#[trigger] spans[i]).end <= s.len() && spans[i].lexeme.loc == walk(
            start_loc(),
            s.subrange(0, spans[i].start),
        )
}

proof fn lemma_lex_from_in_order(s: Seq<char>, p: int, loc: Location, acc: Seq<Span>)
    requires
        0 <= p <= s.len(),
        loc == walk(start_loc(), s.subrange(0, p)),
        located(s, acc),
        room_for(loc, s.len() - p),
        in_order(acc),
        forall|i: int| 0 <= i < acc.len() ==> #[trigger] acc[i].end <= p,
        acc.len() > 0 ==> loc_le(acc.last().lexeme.loc, loc),
    ensures
        lex_from(s, p, loc, acc) matches Ok(r) ==> in_order(r) && located(s, r),
    decreases s.len() - p,
{
    if p < s.len() {
        if crate::scan::is_space(s[p]) {
            lemma_walk_bounds(loc, seq![s[p]]);
            assert(seq![s[p]].drop_last() =~= Seq::<char>::empty());
            lemma_walk_extend(start_loc(), s, 0, p);
            lemma_lex_from_in_order(s, p + 1, step_loc(loc, s[p]), acc);
        } else {
            lemma_scan_advances(s, p);
            match scan_at(s, p) {
                Scan::Found { value, kind, end } => {
                    let sub = s.subrange(p, end);
                    lemma_walk_bounds(loc, sub);
                    let sp = Span { lexeme: crate::token::Lexeme { value, kind, loc }, start: p, end };
                    let acc2 = acc.push(sp);
                    assert forall|i: int, j: int| 0 <= i < j < acc2.len() implies #[trigger] acc2[i].end
                        <= #[trigger] acc2[j].start by {
                        if j == acc.len() {
                            assert(acc2[i] == acc[i]);
                        } else {
                            assert(acc2[i] == acc[i] && acc2[j] == acc[j]);
                        }
                    }
                    assert forall|i: int| 0 <= i < acc2.len() - 1 implies loc_le(
                        #[trigger] acc2[i].lexeme.loc,
                        acc2[i + 1].lexeme.loc,
                    ) by {
                        if i + 1 == acc.len() {
                            assert(acc2[i] == acc.last());
                        } else {
                            assert(acc2[i] == acc[i] && acc2[i + 1] == acc[i + 1]);
                        }
                    }
                    assert forall|i: int| 0 <= i < acc2.len() implies #[trigger] acc2[i].start < acc2[i].end by {
                        if i < acc.len() {
                            assert(acc2[i] == acc[i]);
                        }
                    }
                    assert forall|i: int| 0 <= i < acc2.len() implies #[trigger] acc2[i].end <= end by {
                        if i < acc.len() {
                            assert(acc2[i] == acc[i]);
                        }
                    }
                    assert forall|i: int| 0 <= i < acc2.len() implies (#[trigger] acc2[i]).end <= s.len()
                        && acc2[i].lexeme.loc == walk(start_loc(), s.subrange(0, acc2[i].start)) by {
                        if i < acc.len() {
                            assert(acc2[i] == acc[i]);
                        }
                    }
                    lemma_walk_concat(start_loc(), s.subrange(0, p), sub);
                    assert(s.subrange(0, p) + sub =~= s.subrange(0, end));
                    lemma_lex_from_in_order(s, end, walk(loc, sub), acc2);
                },
                _ => {},
            }
        }
    }
}

/// Lexing yields tokens in buffer order: no two overlap, each token's location
/// is the line and column of its first offset, and it comes no later than the
/// next one's.
pub proof fn lemma_tokens_in_order(s: Seq<char>)
    requires
        s.len() < usize::MAX,
    ensures
        lex_spans(s) matches Ok(spans) ==> in_order(spans) && located(s, spans),
        lex_spans(s) matches Ok(spans) ==> lex_result(s) == Ok::<Seq<crate::token::Lexeme>, crate::error::Failure>(
            spans.map_values(|x: Span| x.lexeme),
        ),
{
    assert(s.subrange(0, 0) =~= Seq::<char>::empty());
    lemma_lex_from_in_order(s, 0, start_loc(), seq![]);
}

/// At `m` the text ends, or holds a character that cannot continue a numeric literal.
pub open spec fn ends_number(y: Seq<char>, m: int) -> bool {
    m >= y.len() || !(is_digit(y[m]) || y[m] == '.' || is_exp_marker(y[m]) || is_sign(y[m]))
}

/// A numeric scan reads the same characters the same way wherever they stand,
/// provided a neutral character (or the end) follows them and they do not end
/// in a bare exponent marker at the very end of the second text.
proof fn lemma_numeric_transfer(
    x: Seq<char>,
    y: Seq<char>,
    i: int,
    off: int,
    pd: bool,
    ex: bool,
    e: int,
)
    requires
        numeric_scan(x, i, pd, ex) == Some(e),
        0 <= i <= e <= x.len(),
        0 <= i + off,
        forall|j: int| i <= j < e ==> j + off < y.len() && y[j + off] == #[trigger] x[j],
        ends_number(y, e + off),
        e + off >= y.len() && i < e ==> !is_exp_marker(x[e - 1]),
    ensures
        numeric_scan(y, i + off, pd, ex) == Some(e + off),
    decreases e - i,
{
    if i < e {
        assert(y[i + off] == x[i]);
        if x[i] == '.' {
            lemma_numeric_scan_advances(x, i + 1, true, ex);
            lemma_numeric_transfer(x, y, i + 1, off, true, ex, e);
        } else if is_exp_marker(x[i]) {
            if is_sign(x[i + 1]) {
                lemma_numeric_scan_advances(x, i + 2, true, true);
                assert(y[i + 1 + off] == x[i + 1]);
                lemma_numeric_transfer(x, y, i + 2, off, true, true, e);
            } else {
                lemma_numeric_scan_advances(x, i + 1, true, true);
                if i + 1 < e {
                    assert(y[i + 1 + off] == x[i + 1]);
                }
                lemma_numeric_transfer(x, y, i + 1, off, true, true, e);
            }
        } else if is_digit(x[i]) {
            lemma_numeric_scan_advances(x, i + 1, pd, ex);
            lemma_numeric_transfer(x, y, i + 1, off, pd, ex, e);
        }
    }
}

proof fn lemma_ident_end_shape(s: Seq<char>, i: int)
    requires
        0 <= i <= s.len(),
    ensures
        forall|j: int| i <= j < ident_end(s, i) ==> is_ident_char(#[trigger] s[j]),
        ident_end(s, i) == s.len() || !is_ident_char(s[ident_end(s, i)]),
    decreases s.len() - i,
{
    lemma_ident_end_bounds(s, i);
    if i < s.len() && is_ident_char(s[i]) {
        lemma_ident_end_shape(s, i + 1);
    }
}

proof fn lemma_ident_end_is(s: Seq<char>, i: int, e: int)
    requires
        0 <= i <= e <= s.len(),
        forall|j: int| i <= j < e ==> is_ident_char(#[trigger] s[j]),
        e == s.len() || !is_ident_char(s[e]),
    ensures
        ident_end(s, i) == e,
    decreases e - i,
{
    if i < e {
        lemma_ident_end_is(s, i + 1, e);
    }
}

/// What a recognizer finds is never empty, starts with no whitespace and covers
/// exactly its value's length, unless it is a string literal.
proof fn lemma_found_shape(s: Seq<char>, p: int)
    requires
        0 <= p < s.len(),
        scan_at(s, p) matches Scan::Found { kind, .. } && kind != TokenKind::StringLiteral,
    ensures
        scan_at(s, p) matches Scan::Found { value, end, .. } && value.len() >= 1 && !is_space(value[0])
            && end == p + value.len() && end <= s.len(),
{
    lemma_scan_advances(s, p);
    if exists|k| keyword_at(s, p, k) {
        let k = choose|k| keyword_at(s, p, k);
        lemma_keyword_letters(k);
    }
}

/// A token that a recognizer found in `s` at `p` is found again, with the same
/// value and class, where its value stands in `y` at `q` followed by a space or
/// by the end of `y`.
proof fn lemma_scan_transfer(s: Seq<char>, p: int, y: Seq<char>, q: int)
    requires
        0 <= p < s.len(),
        scan_at(s, p) matches Scan::Found { kind, .. } && kind != TokenKind::StringLiteral,
        0 <= q,
        q + scan_at(s, p)->value.len() <= y.len(),
        y.subrange(q, q + scan_at(s, p)->value.len()) == scan_at(s, p)->value,
        q + scan_at(s, p)->value.len() == y.len() || y[q + scan_at(s, p)->value.len()] == ' ',
        q + scan_at(s, p)->value.len() == y.len() && scan_at(s, p)->kind == TokenKind::NumericLiteral
            ==> !is_exp_marker(scan_at(s, p)->value.last()),
    ensures
        scan_at(y, q) == (Scan::Found {
            value: scan_at(s, p)->value,
            kind: scan_at(s, p)->kind,
            end: q + scan_at(s, p)->value.len(),
        }),
{
    lemma_found_shape(s, p);
    lemma_quote_text();
    let v = scan_at(s, p)->value;
    let n = v.len() as int;
    assert forall|j: int| 0 <= j < n implies #[trigger] y[q + j] == v[j] by {
        assert(y.subrange(q, q + n)[j] == y[q + j]);
    }
    assert(y[q] == v[0]);
    if exists|k| keyword_at(s, p, k) {
        let k = choose|k| keyword_at(s, p, k);
        lemma_keyword_letters(k);
        assert(keyword_at(y, q, k)) by {
            assert forall|j: int| 0 <= j < n implies to_lower(#[trigger] y[q + j]) == v[j] by {
                assert(y[q + j] == v[j]);
            }
        }
        let k2 = choose|k2| keyword_at(y, q, k2);
        lemma_keyword_unique(y, q, k, k2);
    } else {
        assert(!(exists|k| keyword_at(y, q, k))) by {
            if exists|k| keyword_at(y, q, k) {
                let k = choose|k| keyword_at(y, q, k);
                let w = keyword_text(k);
                lemma_keyword_letters(k);
                assert(to_lower(y[q + 0]) == w[0]);
                if symbol_at(s, p) || numeric_end(s, p) is Some {
                    assert(false);
                } else {
                    let e = ident_end(s, p + 1);
                    lemma_ident_end_shape(s, p + 1);
                    if w.len() < n {
                        assert(y[q + w.len()] == v[w.len() as int]);
                        assert(v[w.len() as int] == s[p + w.len()]);
                        assert(false);
                    } else if w.len() > n {
                        assert(to_lower(y[q + n]) == w[n]);
                        assert(false);
                    } else {
                        assert forall|j: int| 0 <= j < w.len() implies to_lower(#[trigger] s[p + j]) == w[j] by {
                            assert(y[q + j] == v[j]);
                            assert(v[j] == s[p + j]);
                        }
                        assert(keyword_at(s, p, k));
                    }
                }
            }
        }
        if symbol_at(s, p) {
            assert(seq![y[q]] =~= v);
        } else if delim_at(s, p, delimiter_text('\'')) {
        } else if numeric_end(s, p) is Some {
            let e = numeric_end(s, p)->Some_0;
            lemma_numeric_scan_advances(s, p + 1, s[p] == '.', false);
            assert forall|j: int| p + 1 <= j < e implies j + (q - p) < y.len() && y[j + (q - p)] == #[trigger] s[j] by {
                assert(y[q + (j - p)] == v[j - p]);
            }
            if q + n >= y.len() && p + 1 < e {
                assert(v.last() == s[e - 1]);
            }
            lemma_numeric_transfer(s, y, p + 1, q - p, s[p] == '.', false, e);
            assert(y.subrange(q, q + n) =~= v);
        } else {
            let e = ident_end(s, p + 1);
            lemma_ident_end_shape(s, p + 1);
            assert forall|j: int| q + 1 <= j < q + n implies is_ident_char(#[trigger] y[j]) by {
                assert(y[q + (j - q)] == v[j - q]);
            }
            lemma_ident_end_is(y, q + 1, q + n);
        }
    }
}

proof fn lemma_numeric_chars(x: Seq<char>, i: int, pd: bool, ex: bool)
    requires
        0 <= i,
    ensures
        numeric_scan(x, i, pd, ex) matches Some(e) ==> forall|j: int|
            i <= j < e ==> '\0' <= #[trigger] x[j] <= '\u{7f}',
    decreases x.len() - i,
{
    if i < x.len() {
        if x[i] == '.' {
            lemma_numeric_chars(x, i + 1, true, ex);
        } else if is_exp_marker(x[i]) {
            if !ex && i + 1 < x.len() {
                lemma_numeric_chars(x, i + 2, true, true);
                lemma_numeric_chars(x, i + 1, true, true);
            }
        } else if is_digit(x[i]) {
            lemma_numeric_chars(x, i + 1, pd, ex);
        }
    }
}

/// What a recognizer finds, string literals aside, is ASCII.
proof fn lemma_found_ascii(s: Seq<char>, p: int)
    requires
        0 <= p < s.len(),
        scan_at(s, p) matches Scan::Found { kind, .. } && kind != TokenKind::StringLiteral,
    ensures
        vstd::utf8::is_ascii_chars(scan_at(s, p)->value),
{
    lemma_found_shape(s, p);
    let v = scan_at(s, p)->value;
    if exists|k| keyword_at(s, p, k) {
        let k = choose|k| keyword_at(s, p, k);
        lemma_keyword_letters(k);
    } else if symbol_at(s, p) {
    } else if numeric_end(s, p) is Some {
        lemma_numeric_chars(s, p + 1, s[p] == '.', false);
        assert forall|j: int| 0 <= j < v.len() implies '\0' <= #[trigger] v[j] <= '\u{7f}' by {
            assert(v[j] == s[p + j]);
        }
    } else {
        lemma_ident_end_shape(s, p + 1);
        assert forall|j: int| 0 <= j < v.len() implies '\0' <= #[trigger] v[j] <= '\u{7f}' by {
            assert(v[j] == s[p + j]);
        }
    }
}

proof fn lemma_spaced_ascii(vs: Seq<Seq<char>>)
    requires
        forall|i: int| 0 <= i < vs.len() ==> vstd::utf8::is_ascii_chars(#[trigger] vs[i]),
    ensures
        vstd::utf8::is_ascii_chars(spaced(vs)),
    decreases vs.len(),
{
    if vs.len() > 1 {
        lemma_spaced_ascii(vs.drop_first());
        let r = vs[0] + seq![' '] + spaced(vs.drop_first());
        assert forall|j: int| 0 <= j < r.len() implies '\0' <= #[trigger] r[j] <= '\u{7f}' by {
            if j < vs[0].len() {
                assert(r[j] == vs[0][j]);
            } else if j > vs[0].len() {
                assert(r[j] == spaced(vs.drop_first())[j - vs[0].len() - 1]);
            }
        }
    } else if vs.len() == 1 {
        assert(vstd::utf8::is_ascii_chars(vs[0]));
    }
}

/// Values written one after another, with a single space between each two.
pub open spec fn spaced(vs: Seq<Seq<char>>) -> Seq<char>
    decreases vs.len(),
{
    if vs.len() == 0 {
        seq![]
    } else if vs.len() == 1 {
        vs[0]
    } else {
        vs[0] + seq![' '] + spaced(vs.drop_first())
    }
}

/// The values of some tokens.
pub open spec fn values_of(ts: Seq<Lexeme>) -> Seq<Seq<char>> {
    ts.map_values(|l: Lexeme| l.value)
}

/// Tokens compared without their locations.
pub open spec fn value_kinds(ts: Seq<Lexeme>) -> Seq<(Seq<char>, TokenKind)> {
    ts.map_values(|l: Lexeme| (l.value, l.kind))
}

spec fn span_values(sp: Seq<Span>) -> Seq<Seq<char>> {
    sp.map_values(|x: Span| x.lexeme.value)
}

spec fn span_pairs(sp: Seq<Span>) -> Seq<(Seq<char>, TokenKind)> {
    sp.map_values(|x: Span| (x.lexeme.value, x.lexeme.kind))
}

/// Each span is what the recognizers find where it starts.
spec fn found_where_it_starts(s: Seq<char>, sp: Seq<Span>) -> bool {
    forall|i: int|
        0 <= i < sp.len() ==> 0 <= #[trigger] sp[i].start < s.len() && scan_at(s, sp[i].start) == (Scan::Found {
            value: sp[i].lexeme.value,
            kind: sp[i].lexeme.kind,
            end: sp[i].end,
        })
}

proof fn lemma_lex_from_found(s: Seq<char>, p: int, loc: Location, acc: Seq<Span>)
    requires
        0 <= p,
        found_where_it_starts(s, acc),
    ensures
        lex_from(s, p, loc, acc) matches Ok(r) ==> found_where_it_starts(s, r),
    decreases s.len() - p,
{
    if p < s.len() {
        if is_space(s[p]) {
            lemma_lex_from_found(s, p + 1, step_loc(loc, s[p]), acc);
        } else {
            lemma_scan_advances(s, p);
            match scan_at(s, p) {
                Scan::Found { value, kind, end } => {
                    let acc2 = acc.push(Span { lexeme: Lexeme { value, kind, loc }, start: p, end });
                    assert forall|i: int| 0 <= i < acc2.len() implies 0 <= #[trigger] acc2[i].start < s.len()
                        && scan_at(s, acc2[i].start) == (Scan::Found {
                        value: acc2[i].lexeme.value,
                        kind: acc2[i].lexeme.kind,
                        end: acc2[i].end,
                    }) by {
                        if i < acc.len() {
                            assert(acc2[i] == acc[i]);
                        }
                    }
                    lemma_lex_from_found(s, end, walk(loc, s.subrange(p, end)), acc2);
                },
                _ => {},
            }
        }
    }
}

proof fn lemma_relex_from(
    s: Seq<char>,
    sp: Seq<Span>,
    k: int,
    y: Seq<char>,
    q: int,
    loc: Location,
    acc: Seq<Span>,
)
    requires
        0 <= k <= sp.len(),
        0 <= q <= y.len(),
        found_where_it_starts(s, sp),
        forall|i: int| 0 <= i < sp.len() ==> (#[trigger] sp[i]).lexeme.kind != TokenKind::StringLiteral,
        sp.len() > 0 && sp.last().lexeme.kind == TokenKind::NumericLiteral ==> !is_exp_marker(
            sp.last().lexeme.value.last(),
        ),
        y.subrange(q, y.len() as int) == spaced(span_values(sp.subrange(k, sp.len() as int))),
    ensures
        lex_from(y, q, loc, acc) matches Ok(r) && span_pairs(r) == span_pairs(acc) + span_pairs(
            sp.subrange(k, sp.len() as int),
        ),
    decreases sp.len() - k,
{
    let n = sp.len() as int;
    let rest = span_values(sp.subrange(k, n));
    if k == n {
        assert(rest.len() == 0);
        assert(y.subrange(q, y.len() as int).len() == 0);
        assert(span_pairs(acc) + span_pairs(sp.subrange(k, n)) =~= span_pairs(acc));
    } else {
        let v = sp[k].lexeme.value;
        let kind = sp[k].lexeme.kind;
        let p = sp[k].start;
        assert(rest[0] == v);
        lemma_found_shape(s, p);
        let m = v.len() as int;
        let loc1 = walk(loc, y.subrange(q, q + m));
        let acc1 = acc.push(Span { lexeme: Lexeme { value: v, kind, loc }, start: q, end: q + m });
        assert(span_pairs(acc1) =~= span_pairs(acc).push((v, kind)));
        assert(span_pairs(sp.subrange(k, n)) =~= seq![(v, kind)] + span_pairs(sp.subrange(k + 1, n)));
        if k + 1 == n {
            assert(y.subrange(q, y.len() as int) == v);
            assert(y.len() == q + m);
            assert(y.subrange(q, q + m) =~= v);
            assert(sp[k] == sp.last());
            lemma_scan_transfer(s, p, y, q);
            assert(y[q] == v[0]);
            assert(lex_from(y, q, loc, acc) == lex_from(y, q + m, loc1, acc1));
            assert(lex_from(y, q + m, loc1, acc1) == Ok::<Seq<Span>, Failure>(acc1));
            assert(span_pairs(sp.subrange(k + 1, n)) =~= Seq::<(Seq<char>, TokenKind)>::empty());
            assert(span_pairs(acc1) =~= span_pairs(acc) + span_pairs(sp.subrange(k, n)));
        } else {
            assert(rest.drop_first() =~= span_values(sp.subrange(k + 1, n)));
            let tail = spaced(rest.drop_first());
            let whole = y.subrange(q, y.len() as int);
            assert(whole == v + seq![' '] + tail);
            assert(whole[m] == ' ');
            assert(y[q + m] == whole[m]);
            assert(y.subrange(q, q + m) =~= whole.subrange(0, m));
            assert(whole.subrange(0, m) =~= v);
            assert(whole.len() == m + 1 + tail.len());
            assert forall|j: int| 0 <= j < tail.len() implies #[trigger] y.subrange(q + m + 1, y.len() as int)[j] == tail[j] by {
                assert(y[q + m + 1 + j] == whole[m + 1 + j]);
                assert((v + seq![' '] + tail)[m + 1 + j] == tail[j]);
            }
            assert(y.subrange(q + m + 1, y.len() as int) =~= tail);
            lemma_scan_transfer(s, p, y, q);
            assert(y[q] == v[0]);
            assert(lex_from(y, q, loc, acc) == lex_from(y, q + m, loc1, acc1));
            assert(lex_from(y, q + m, loc1, acc1) == lex_from(y, q + m + 1, step_loc(loc1, ' '), acc1));
            lemma_relex_from(s, sp, k + 1, y, q + m + 1, step_loc(loc1, ' '), acc1);
            assert(span_pairs(acc1) + span_pairs(sp.subrange(k + 1, n)) =~= span_pairs(acc) + span_pairs(
                sp.subrange(k, n),
            ));
        }
    }
}

/// Writing the token values out with one space between each two and lexing
/// that text again gives back the same values in the same classes. This holds
/// when no token is a string literal (its value has lost its quotes) and the
/// last token is not a numeric literal that ends in a bare exponent marker
/// (which needs a character after it).
pub proof fn lemma_relex_spaced(s: Seq<char>, ts: Seq<Lexeme>)
    requires
        lex_result(s) == Ok::<Seq<Lexeme>, Failure>(ts),
        forall|i: int| 0 <= i < ts.len() ==> (#[trigger] ts[i]).kind != TokenKind::StringLiteral,
        ts.len() > 0 && ts.last().kind == TokenKind::NumericLiteral ==> !is_exp_marker(ts.last().value.last()),
    ensures
        read_bytes(spaced(values_of(ts))) == spaced(values_of(ts)),
        lex_result(spaced(values_of(ts))) matches Ok(ts2) && value_kinds(ts2) == value_kinds(ts),
{
    let sp = lex_spans(s)->Ok_0;
    let n = sp.len() as int;
    assert(ts == sp.map_values(|x: Span| x.lexeme));
    assert(ts.len() == n);
    lemma_lex_from_found(s, 0, start_loc(), seq![]);
    assert forall|i: int| 0 <= i < n implies (#[trigger] sp[i]).lexeme.kind != TokenKind::StringLiteral by {
        assert(ts[i] == sp[i].lexeme);
    }
    if n > 0 {
        assert(ts.last() == sp.last().lexeme);
    }
    assert(values_of(ts) =~= span_values(sp));
    let y = spaced(values_of(ts));
    assert forall|i: int| 0 <= i < n implies vstd::utf8::is_ascii_chars(#[trigger] values_of(ts)[i]) by {
        lemma_found_ascii(s, sp[i].start);
        assert(values_of(ts)[i] == sp[i].lexeme.value);
    }
    lemma_spaced_ascii(values_of(ts));
    lemma_ascii_reads_as_is(y);
    assert(sp.subrange(0, n) =~= sp);
    assert(y.subrange(0, y.len() as int) =~= y);
    lemma_relex_from(s, sp, 0, y, 0, start_loc(), seq![]);
    let r = lex_from(y, 0, start_loc(), seq![])->Ok_0;
    assert(value_kinds(r.map_values(|x: Span| x.lexeme)) =~= span_pairs(r));
    assert(span_pairs(sp) =~= value_kinds(ts));
    assert(span_pairs(seq![]) + span_pairs(sp) =~= span_pairs(sp));
}

} // verus!
