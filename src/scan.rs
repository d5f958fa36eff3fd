use vstd::prelude::*;
use vstd::string::StringExecFns;
use vstd::string::StringSliceAdditionalSpecFns;

use crate::error::LexError;
use crate::position::{advance, cursor_fits, lemma_walk_bounds, lemma_walk_extend, walk, Cursor};
use crate::text::{byte_text, lemma_boundary_after_scalar, lemma_read_bytes_concat, read_bytes, slice_between, source_text};
use vstd::utf8::{encode_utf8, is_char_boundary, valid_utf8};
use crate::token::{keyword_text, symbol_char, Keyword, Lexeme, Symbol, Token, TokenKind};

verus! {

pub open spec fn is_digit(c: char) -> bool {
    '0' <= c && c <= '9'
}

pub open spec fn is_letter(c: char) -> bool {
    ('a' <= c && c <= 'z') || ('A' <= c && c <= 'Z')
}

/// A character that may begin an identifier.
pub open spec fn is_ident_start(c: char) -> bool {
    is_letter(c) || c == '_'
}

/// A character that may continue an identifier.
pub open spec fn is_ident_char(c: char) -> bool {
    is_ident_start(c) || is_digit(c)
}

pub open spec fn is_exp_marker(c: char) -> bool {
    c == 'e' || c == 'E'
}

pub open spec fn is_sign(c: char) -> bool {
    c == '+' || c == '-'
}

/// Whitespace that separates tokens.
pub open spec fn is_space(c: char) -> bool {
    c == ' ' || c == '\t' || c == '\n'
}

/// ASCII lower case.
pub open spec fn to_lower(c: char) -> char {
    if 'A' <= c && c <= 'Z' {
        ((c as int) + 32) as char
    } else {
        c
    }
}

/// How a numeric literal read up to `i` goes on: the offset where it ends, or
/// `None` when the rest breaks its grammar (a second period, a second exponent
/// marker, an exponent marker at the very end).
pub open spec fn numeric_scan(s: Seq<char>, i: int, period: bool, exp: bool) -> Option<int>
    decreases s.len() - i,
{
    if i >= s.len() {
        Some(i)
    } else if s[i] == '.' {
        if period {
            None
        } else {
            numeric_scan(s, i + 1, true, exp)
        }
    } else if is_exp_marker(s[i]) {
        if exp || i + 1 >= s.len() {
            None
        } else if is_sign(s[i + 1]) {
            numeric_scan(s, i + 2, true, true)
        } else {
            numeric_scan(s, i + 1, true, true)
        }
    } else if is_digit(s[i]) {
        numeric_scan(s, i + 1, period, exp)
    } else {
        Some(i)
    }
}

/// Where the numeric literal that starts at `p` ends, if one does.
pub open spec fn numeric_end(s: Seq<char>, p: int) -> Option<int> {
    if 0 <= p < s.len() && (is_digit(s[p]) || s[p] == '.') {
        numeric_scan(s, p + 1, s[p] == '.', false)
    } else {
        None
    }
}

/// A scan from `ic` that ended at `c` produced the token `t` of class `kind`.
pub open spec fn spans(s: Seq<char>, ic: Cursor, c: Cursor, t: Lexeme, kind: TokenKind) -> bool {
    &&& ic.pointer < c.pointer <= s.len()
    &&& c.loc == walk(ic.loc, s.subrange(ic.pointer as int, c.pointer as int))
    &&& t.kind == kind
    &&& t.loc == ic.loc
}

/// Moves `cur` over the character under it, keeping its location in step with `ic`.
fn step_over(Ghost(s): Ghost<Seq<char>>, ic: Cursor, cur: Cursor, ch: char) -> (r: Cursor)
    requires
        cursor_fits(s, ic),
        s.len() <= usize::MAX,
        ic.pointer <= cur.pointer < s.len(),
        cur.loc == walk(ic.loc, s.subrange(ic.pointer as int, cur.pointer as int)),
        ch == s[cur.pointer as int],
    ensures
        r.pointer == cur.pointer + 1,
        r.loc == walk(ic.loc, s.subrange(ic.pointer as int, r.pointer as int)),
{
    proof {
        lemma_walk_bounds(ic.loc, s.subrange(ic.pointer as int, cur.pointer as int));
        lemma_walk_extend(ic.loc, s, ic.pointer as int, cur.pointer as int);
    }
    advance(cur, ch)
}

/// Reads a numeric literal at `ic`: digits with at most one period and at most
/// one exponent marker, which may carry a sign and admits no period after it.
pub fn lex_numeric(input: &str, ic: Cursor) -> (r: Option<(Token, Cursor)>)
    requires
        cursor_fits(source_text(input), ic),
    ensures
        match r {
            None => numeric_end(source_text(input), ic.pointer as int) is None,
            Some((t, c)) => {
                &&& spans(source_text(input), ic, c, t@, TokenKind::NumericLiteral)
                &&& numeric_end(source_text(input), ic.pointer as int) == Some(c.pointer as int)
                &&& t.value@ == source_text(input).subrange(ic.pointer as int, c.pointer as int)
            },
        },
{
    let ghost s = source_text(input);
    let bytes = input.as_bytes();
    let len = bytes.len();
    if ic.pointer >= len {
        return None;
    }
    let first = bytes[ic.pointer] as char;
    if !(('0' <= first && first <= '9') || first == '.') {
        return None;
    }
    let mut period = first == '.';
    let mut exp = false;
    let mut value = String::new();
    value.push(first);
    let mut cur = step_over(Ghost(s), ic, ic, first);
    assert(value@ =~= s.subrange(ic.pointer as int, cur.pointer as int));
    loop
        invariant
            s == source_text(input),
            bytes@ == input.spec_bytes(),
            len == s.len(),
            cursor_fits(s, ic),
            ic.pointer < cur.pointer <= len,
            cur.loc == walk(ic.loc, s.subrange(ic.pointer as int, cur.pointer as int)),
            value@ == s.subrange(ic.pointer as int, cur.pointer as int),
            numeric_end(s, ic.pointer as int) == numeric_scan(s, cur.pointer as int, period, exp),
        ensures
            numeric_end(s, ic.pointer as int) == Some(cur.pointer as int),
        decreases len - cur.pointer,
    {
        if cur.pointer >= len {
            assert(numeric_scan(s, cur.pointer as int, period, exp) == Some(cur.pointer as int));
            break;
        }
        let c = bytes[cur.pointer] as char;
        if c == '.' {
            if period {
                assert(numeric_scan(s, cur.pointer as int, period, exp) is None);
                return None;
            }
            period = true;
            value.push(c);
            cur = step_over(Ghost(s), ic, cur, c);
        } else if c == 'e' || c == 'E' {
            if exp || cur.pointer + 1 >= len {
                assert(numeric_scan(s, cur.pointer as int, period, exp) is None);
                return None;
            }
            period = true;
            exp = true;
            value.push(c);
            cur = step_over(Ghost(s), ic, cur, c);
            let next = bytes[cur.pointer] as char;
            if next == '+' || next == '-' {
                value.push(next);
                cur = step_over(Ghost(s), ic, cur, next);
            }
        } else if '0' <= c && c <= '9' {
            value.push(c);
            cur = step_over(Ghost(s), ic, cur, c);
        } else {
            assert(numeric_scan(s, cur.pointer as int, period, exp) == Some(cur.pointer as int));
            break;
        }
        assert(value@ =~= s.subrange(ic.pointer as int, cur.pointer as int));
    }
    Some((Token { value, kind: TokenKind::NumericLiteral, loc: ic.loc }, cur))
}

/// The delimiter `dl` (a character's encoding, one character per byte) stands at `i`.
pub open spec fn delim_at(s: Seq<char>, i: int, dl: Seq<char>) -> bool {
    0 <= i && i + dl.len() <= s.len() && s.subrange(i, i + dl.len()) == dl
}

/// How a delimited literal read up to `i` goes on, with `acc` the body so far:
/// the offset just past its closing delimiter and its body, or `None` when the
/// text ends before it closes. A doubled delimiter stands for one delimiter.
pub open spec fn delimited_scan(s: Seq<char>, i: int, dl: Seq<char>, acc: Seq<char>) -> Option<(int, Seq<char>)>
    decreases s.len() - i,
{
    if dl.len() == 0 || i >= s.len() {
        None
    } else if delim_at(s, i, dl) {
        if delim_at(s, i + dl.len(), dl) {
            delimited_scan(s, i + 2 * dl.len(), dl, acc + dl)
        } else {
            Some((i + dl.len(), acc))
        }
    } else {
        delimited_scan(s, i + 1, dl, acc.push(s[i]))
    }
}

/// The encoding of `d`, read one character per byte.
pub open spec fn delimiter_text(d: char) -> Seq<char> {
    read_bytes(seq![d])
}

/// Whether the encoding `db` stands in `bytes` at `i`.
fn delim_matches(bytes: &[u8], i: usize, db: &[u8]) -> (r: bool)
    requires
        i <= bytes@.len(),
    ensures
        r == delim_at(byte_text(bytes@), i as int, byte_text(db@)),
{
    let ghost s = byte_text(bytes@);
    let ghost dl = byte_text(db@);
    let n = db.len();
    let blen = bytes.len();
    if n > blen - i {
        return false;
    }
    let mut j: usize = 0;
    while j < n
        invariant
            s == byte_text(bytes@),
            dl == byte_text(db@),
            n == db@.len(),
            blen == bytes@.len(),
            i + n <= blen,
            j <= n,
            forall|m: int| 0 <= m < j ==> #[trigger] s[i + m] == dl[m],
        decreases n - j,
    {
        if bytes[i + j] != db[j] {
            assert(s.subrange(i as int, i + n)[j as int] != dl[j as int]);
            return false;
        }
        j += 1;
    }
    assert forall|m: int| 0 <= m < n implies #[trigger] s.subrange(i as int, i + n)[m] == dl[m] by {
        assert(s[i + m] == dl[m]);
    }
    assert(s.subrange(i as int, i + n) =~= dl);
    true
}

/// A delimiter found in valid UTF-8 starts on a character boundary and ends on one.
proof fn lemma_delimiter_boundaries(b: Seq<u8>, i: int, d: char)
    requires
        valid_utf8(b),
        delim_at(byte_text(b), i, delimiter_text(d)),
    ensures
        is_char_boundary(b, i),
        is_char_boundary(b, i + delimiter_text(d).len()),
{
    let e = encode_utf8(seq![d]);
    vstd::utf8::encode_utf8_first_scalar(seq![d]);
    assert(seq![d].drop_first() =~= Seq::<char>::empty());
    assert(encode_utf8(Seq::<char>::empty()) =~= Seq::<u8>::empty());
    assert(e =~= vstd::utf8::encode_scalar(d as u32));
    let k = e.len() as int;
    assert forall|j: int| 0 <= j < k implies #[trigger] b[i + j] == e[j] by {
        assert(byte_text(b).subrange(i, i + k)[j] == delimiter_text(d)[j]);
    }
    assert(b[i + 0] == e[0]);
    assert(b[i] == e[0]);
    vstd::utf8::is_char_boundary_iff_is_leading_byte(b, i);
    let rest = b.subrange(i, b.len() as int);
    assert(rest[0] == e[0]);
    lemma_boundary_after_scalar(b, i);
}

/// Moves `cur` over the next `n` characters.
fn step_bytes(Ghost(s): Ghost<Seq<char>>, bytes: &[u8], ic: Cursor, cur: Cursor, n: usize) -> (r: Cursor)
    requires
        cursor_fits(s, ic),
        s == byte_text(bytes@),
        ic.pointer <= cur.pointer,
        cur.pointer + n <= s.len(),
        cur.loc == walk(ic.loc, s.subrange(ic.pointer as int, cur.pointer as int)),
    ensures
        r.pointer == cur.pointer + n,
        r.loc == walk(ic.loc, s.subrange(ic.pointer as int, r.pointer as int)),
{
    let mut r = cur;
    let mut j: usize = 0;
    while j < n
        invariant
            cursor_fits(s, ic),
            s == byte_text(bytes@),
            ic.pointer <= cur.pointer,
            cur.pointer + n <= s.len(),
            j <= n,
            r.pointer == cur.pointer + j,
            r.loc == walk(ic.loc, s.subrange(ic.pointer as int, r.pointer as int)),
        decreases n - j,
    {
        r = step_over(Ghost(s), ic, r, bytes[r.pointer] as char);
        j += 1;
    }
    r
}

/// Reads a literal enclosed in `delimiter` at `ic`. No match where the
/// delimiter is absent; a fatal error where the literal never closes. The
/// token's value is the body's text with each doubled delimiter taken once.
pub fn lex_character_delimited(input: &str, ic: Cursor, delimiter: char) -> (r: Result<Option<(Token, Cursor)>, LexError>)
    requires
        cursor_fits(source_text(input), ic),
    ensures
        match r {
            Ok(None) => !delim_at(source_text(input), ic.pointer as int, delimiter_text(delimiter)),
            Ok(Some((t, c))) => {
                &&& delim_at(source_text(input), ic.pointer as int, delimiter_text(delimiter))
                &&& spans(source_text(input), ic, c, t@, TokenKind::StringLiteral)
                &&& delimited_scan(
                    source_text(input),
                    ic.pointer + delimiter_text(delimiter).len(),
                    delimiter_text(delimiter),
                    seq![],
                ) == Some((c.pointer as int, read_bytes(t.value@)))
            },
            Err(e) => {
                &&& delim_at(source_text(input), ic.pointer as int, delimiter_text(delimiter))
                &&& delimited_scan(
                    source_text(input),
                    ic.pointer + delimiter_text(delimiter).len(),
                    delimiter_text(delimiter),
                    seq![],
                ) is None
                &&& e == LexError::Unterminated { loc: ic.loc }
            },
        },
{
    let ghost s = source_text(input);
    let ghost b = input.spec_bytes();
    let ghost dl = delimiter_text(delimiter);
    let bytes = input.as_bytes();
    let len = bytes.len();
    let mut dbuf = String::new();
    dbuf.push(delimiter);
    let dbytes = dbuf.as_str().as_bytes();
    let k = dbytes.len();
    proof {
        broadcast use vstd::utf8::encode_utf8_valid_utf8;
        assert(dbuf@ =~= seq![delimiter]);
        assert(dl =~= byte_text(dbytes@));
        vstd::utf8::encode_utf8_first_scalar(seq![delimiter]);
        assert(seq![delimiter].drop_first() =~= Seq::<char>::empty());
        assert(k >= 1);
        assert(valid_utf8(b));
    }
    if !delim_matches(bytes, ic.pointer, dbytes) {
        return Ok(None);
    }
    proof {
        lemma_delimiter_boundaries(b, ic.pointer as int, delimiter);
    }
    let mut cur = step_bytes(Ghost(s), bytes, ic, ic, k);
    let mut seg: usize = cur.pointer;
    let mut value = String::new();
    assert(read_bytes(value@) + s.subrange(seg as int, cur.pointer as int) =~= seq![]);
    loop
        invariant
            s == source_text(input),
            b == input.spec_bytes(),
            valid_utf8(b),
            bytes@ == b,
            s == byte_text(b),
            len == s.len(),
            cursor_fits(s, ic),
            dl == delimiter_text(delimiter),
            dl == byte_text(dbytes@),
            k == dl.len(),
            k >= 1,
            delim_at(s, ic.pointer as int, dl),
            ic.pointer + k <= seg <= cur.pointer <= len,
            is_char_boundary(b, seg as int),
            cur.loc == walk(ic.loc, s.subrange(ic.pointer as int, cur.pointer as int)),
            delimited_scan(s, ic.pointer + k, dl, seq![])
                == delimited_scan(s, cur.pointer as int, dl, read_bytes(value@) + s.subrange(seg as int, cur.pointer as int)),
        decreases len - cur.pointer,
    {
        let ghost acc = read_bytes(value@) + s.subrange(seg as int, cur.pointer as int);
        if cur.pointer >= len {
            return Err(LexError::Unterminated { loc: ic.loc });
        }
        if delim_matches(bytes, cur.pointer, dbytes) {
            proof {
                lemma_delimiter_boundaries(b, cur.pointer as int, delimiter);
            }
            let after = cur.pointer + k;
            if delim_matches(bytes, after, dbytes) {
                let piece = slice_between(input, seg, after);
                proof {
                    lemma_read_bytes_concat(value@, piece@);
                    assert(read_bytes(piece@) =~= s.subrange(seg as int, after as int));
                    assert(s.subrange(seg as int, after as int) =~= s.subrange(seg as int, cur.pointer as int) + dl);
                    lemma_delimiter_boundaries(b, after as int, delimiter);
                }
                value.append(piece);
                cur = step_bytes(Ghost(s), bytes, ic, cur, k + k);
                seg = cur.pointer;
                assert(read_bytes(value@) + s.subrange(seg as int, cur.pointer as int) =~= acc + dl);
            } else {
                let piece = slice_between(input, seg, cur.pointer);
                proof {
                    lemma_read_bytes_concat(value@, piece@);
                    assert(read_bytes(piece@) =~= s.subrange(seg as int, cur.pointer as int));
                }
                value.append(piece);
                cur = step_bytes(Ghost(s), bytes, ic, cur, k);
                return Ok(Some((Token { value, kind: TokenKind::StringLiteral, loc: ic.loc }, cur)));
            }
        } else {
            cur = step_over(Ghost(s), ic, cur, bytes[cur.pointer] as char);
            assert(read_bytes(value@) + s.subrange(seg as int, cur.pointer as int) =~= acc.push(s[cur.pointer - 1]));
        }
    }
}

/// Reads an SQL string literal: text in single quotes, `''` standing for one quote.
pub fn lex_string(input: &str, ic: Cursor) -> (r: Result<Option<(Token, Cursor)>, LexError>)
    requires
        cursor_fits(source_text(input), ic),
    ensures
        match r {
            Ok(None) => !delim_at(source_text(input), ic.pointer as int, delimiter_text('\'')),
            Ok(Some((t, c))) => {
                &&& delim_at(source_text(input), ic.pointer as int, delimiter_text('\''))
                &&& spans(source_text(input), ic, c, t@, TokenKind::StringLiteral)
                &&& delimited_scan(source_text(input), ic.pointer + 1, delimiter_text('\''), seq![])
                    == Some((c.pointer as int, read_bytes(t.value@)))
            },
            Err(e) => {
                &&& delim_at(source_text(input), ic.pointer as int, delimiter_text('\''))
                &&& delimited_scan(source_text(input), ic.pointer + 1, delimiter_text('\''), seq![]) is None
                &&& e == LexError::Unterminated { loc: ic.loc }
            },
        },
{
    proof {
        lemma_quote_text();
    }
    lex_character_delimited(input, ic, '\'')
}

/// The quote is one byte.
pub proof fn lemma_quote_text()
    ensures
        delimiter_text('\'') == seq!['\''],
{
    let q = seq!['\''];
    vstd::utf8::is_ascii_chars_encode_utf8(q);
    assert(delimiter_text('\'') =~= q);
}

/// Keyword `k` is spelled at `p`, in any case, and no identifier character follows it.
pub open spec fn keyword_at(s: Seq<char>, p: int, k: Keyword) -> bool {
    let w = keyword_text(k);
    &&& 0 <= p
    &&& p + w.len() <= s.len()
    &&& forall|j: int| 0 <= j < w.len() ==> to_lower(#[trigger] s[p + j]) == w[j]
    &&& !(p + w.len() < s.len() && is_ident_char(s[p + w.len()]))
}

/// Every keyword is spelled in lower-case letters.
pub proof fn lemma_keyword_letters(k: Keyword)
    ensures
        keyword_text(k).len() >= 2,
        forall|j: int| 0 <= j < keyword_text(k).len() ==> 'a' <= #[trigger] keyword_text(k)[j] <= 'z',
{
}

fn lower(c: char) -> (r: char)
    ensures
        r == to_lower(c),
{
    if 'A' <= c && c <= 'Z' {
        ((c as u8) + 32) as char
    } else {
        c
    }
}

fn ident_char(c: char) -> (r: bool)
    ensures
        r == is_ident_char(c),
{
    ('a' <= c && c <= 'z') || ('A' <= c && c <= 'Z') || c == '_' || ('0' <= c && c <= '9')
}

/// Whether keyword `k` stands at `p`.
fn keyword_fits(bytes: &[u8], p: usize, k: Keyword) -> (r: bool)
    requires
        p <= bytes@.len(),
    ensures
        r == keyword_at(byte_text(bytes@), p as int, k),
{
    let ghost s = byte_text(bytes@);
    let ghost w = keyword_text(k);
    let word = k.as_str();
    proof {
        broadcast use vstd::string::is_ascii_spec_bytes;
        lemma_keyword_letters(k);
    }
    let wb = word.as_bytes();
    let n = wb.len();
    let blen = bytes.len();
    assert(n == w.len());
    if n > blen - p {
        return false;
    }
    let mut j: usize = 0;
    while j < n
        invariant
            s == byte_text(bytes@),
            w == keyword_text(k),
            wb@ == word.spec_bytes(),
            word@ == w,
            forall|i: int| 0 <= i < w.len() ==> 'a' <= #[trigger] w[i] <= 'z',
            wb@ =~= Seq::new(word@.len(), |i| word@.index(i) as u8),
            n == w.len(),
            blen == bytes@.len(),
            p + n <= bytes@.len(),
            j <= n,
            forall|i: int| 0 <= i < j ==> to_lower(#[trigger] s[p + i]) == w[i],
        decreases n - j,
    {
        assert(wb@[j as int] as char == w[j as int]);
        if lower(bytes[p + j] as char) != wb[j] as char {
            assert(to_lower(s[p + j]) != w[j as int]);
            return false;
        }
        j += 1;
    }
    if p + n < bytes.len() && ident_char(bytes[p + n] as char) {
        return false;
    }
    true
}

/// Reads a keyword at `ic`, matched without regard to case; the token holds
/// its canonical lower-case spelling.
pub fn lex_keyword(input: &str, ic: Cursor) -> (r: Option<(Token, Cursor)>)
    requires
        cursor_fits(source_text(input), ic),
    ensures
        match r {
            None => forall|k: Keyword| !keyword_at(source_text(input), ic.pointer as int, k),
            Some((t, c)) => exists|k: Keyword| {
                &&& keyword_at(source_text(input), ic.pointer as int, k)
                &&& t.value@ == keyword_text(k)
                &&& c.pointer == ic.pointer + keyword_text(k).len()
                &&& spans(source_text(input), ic, c, t@, TokenKind::Keyword)
            },
        },
{
    let ghost s = source_text(input);
    let bytes = input.as_bytes();
    let len = bytes.len();
    let keywords: [Keyword; 10] = [
        Keyword::Select,
        Keyword::From,
        Keyword::As,
        Keyword::Table,
        Keyword::Create,
        Keyword::Insert,
        Keyword::Into,
        Keyword::Values,
        Keyword::Int,
        Keyword::Text,
    ];
    let mut i: usize = 0;
    while i < 10
        invariant
            s == source_text(input),
            bytes@ == input.spec_bytes(),
            len == s.len(),
            cursor_fits(s, ic),
            i <= 10,
            keywords@ == seq![
                Keyword::Select,
                Keyword::From,
                Keyword::As,
                Keyword::Table,
                Keyword::Create,
                Keyword::Insert,
                Keyword::Into,
                Keyword::Values,
                Keyword::Int,
                Keyword::Text,
            ],
            forall|j: int| 0 <= j < i ==> !keyword_at(s, ic.pointer as int, #[trigger] keywords@[j]),
        decreases 10 - i,
    {
        let k = keywords[i];
        if keyword_fits(bytes, ic.pointer, k) {
            let word = k.as_str();
            let mut value = String::new();
            let mut cur = ic;
            let mut j: usize = 0;
            proof {
                broadcast use vstd::string::is_ascii_spec_bytes;
            }
            let wb = word.as_bytes();
            while j < wb.len()
                invariant
                    s == source_text(input),
                    bytes@ == input.spec_bytes(),
                    len == s.len(),
                    cursor_fits(s, ic),
                    keyword_at(s, ic.pointer as int, k),
                    word@ == keyword_text(k),
                    wb@ =~= Seq::new(word@.len(), |i| word@.index(i) as u8),
                    forall|i: int| 0 <= i < keyword_text(k).len() ==> 'a' <= #[trigger] keyword_text(k)[i] <= 'z',
                    j <= wb@.len(),
                    cur.pointer == ic.pointer + j,
                    cur.loc == walk(ic.loc, s.subrange(ic.pointer as int, cur.pointer as int)),
                    value@ == keyword_text(k).subrange(0, j as int),
                decreases wb@.len() - j,
            {
                proof {
                    lemma_keyword_letters(k);
                }
                let ch = bytes[cur.pointer] as char;
                cur = step_over(Ghost(s), ic, cur, ch);
                value.push(wb[j] as char);
                j += 1;
                assert(value@ =~= keyword_text(k).subrange(0, j as int));
            }
            assert(value@ =~= keyword_text(k));
            return Some((Token { value, kind: TokenKind::Keyword, loc: ic.loc }, cur));
        }
        i += 1;
    }
    assert forall|k: Keyword| !keyword_at(s, ic.pointer as int, k) by {
        match k {
            Keyword::Select => assert(keywords@[0] == k),
            Keyword::From => assert(keywords@[1] == k),
            Keyword::As => assert(keywords@[2] == k),
            Keyword::Table => assert(keywords@[3] == k),
            Keyword::Create => assert(keywords@[4] == k),
            Keyword::Insert => assert(keywords@[5] == k),
            Keyword::Into => assert(keywords@[6] == k),
            Keyword::Values => assert(keywords@[7] == k),
            Keyword::Int => assert(keywords@[8] == k),
            Keyword::Text => assert(keywords@[9] == k),
        }
    }
    None
}

/// The symbol spelled by `c`, if any.
pub open spec fn symbol_of(c: char) -> Option<Symbol> {
    if c == ';' {
        Some(Symbol::Semicolon)
    } else if c == '*' {
        Some(Symbol::Asterix)
    } else if c == ',' {
        Some(Symbol::Comma)
    } else if c == '(' {
        Some(Symbol::LeftParen)
    } else if c == ')' {
        Some(Symbol::RightParen)
    } else {
        None
    }
}

/// A symbol stands at `p`.
pub open spec fn symbol_at(s: Seq<char>, p: int) -> bool {
    0 <= p < s.len() && symbol_of(s[p]) is Some
}

/// Reads a one-character symbol at `ic`.
pub fn lex_symbol(input: &str, ic: Cursor) -> (r: Option<(Token, Cursor)>)
    requires
        cursor_fits(source_text(input), ic),
    ensures
        match r {
            None => !symbol_at(source_text(input), ic.pointer as int),
            Some((t, c)) => {
                &&& symbol_at(source_text(input), ic.pointer as int)
                &&& t.value@ == seq![source_text(input)[ic.pointer as int]]
                &&& c.pointer == ic.pointer + 1
                &&& spans(source_text(input), ic, c, t@, TokenKind::Symbol)
            },
        },
{
    let ghost s = source_text(input);
    let bytes = input.as_bytes();
    if ic.pointer >= bytes.len() {
        return None;
    }
    let ch = bytes[ic.pointer] as char;
    let sym = if ch == ';' {
        Symbol::Semicolon
    } else if ch == '*' {
        Symbol::Asterix
    } else if ch == ',' {
        Symbol::Comma
    } else if ch == '(' {
        Symbol::LeftParen
    } else if ch == ')' {
        Symbol::RightParen
    } else {
        return None;
    };
    assert(symbol_char(sym) == ch);
    let value = String::from_str(sym.as_str());
    let cur = step_over(Ghost(s), ic, ic, ch);
    Some((Token { value, kind: TokenKind::Symbol, loc: ic.loc }, cur))
}

/// The end of the run of identifier characters that starts at `i`.
pub open spec fn ident_end(s: Seq<char>, i: int) -> int
    decreases s.len() - i,
{
    if 0 <= i < s.len() && is_ident_char(s[i]) {
        ident_end(s, i + 1)
    } else {
        i
    }
}

/// An identifier starts at `p`.
pub open spec fn ident_at(s: Seq<char>, p: int) -> bool {
    0 <= p < s.len() && is_ident_start(s[p])
}

/// Reads an identifier at `ic`: a letter or underscore, then the longest run
/// of letters, digits and underscores.
pub fn lex_identifier(input: &str, ic: Cursor) -> (r: Option<(Token, Cursor)>)
    requires
        cursor_fits(source_text(input), ic),
    ensures
        match r {
            None => !ident_at(source_text(input), ic.pointer as int),
            Some((t, c)) => {
                &&& ident_at(source_text(input), ic.pointer as int)
                &&& c.pointer == ident_end(source_text(input), ic.pointer + 1)
                &&& t.value@ == source_text(input).subrange(ic.pointer as int, c.pointer as int)
                &&& spans(source_text(input), ic, c, t@, TokenKind::Identifier)
            },
        },
{
    let ghost s = source_text(input);
    let bytes = input.as_bytes();
    let len = bytes.len();
    if ic.pointer >= len {
        return None;
    }
    let first = bytes[ic.pointer] as char;
    if !(('a' <= first && first <= 'z') || ('A' <= first && first <= 'Z') || first == '_') {
        return None;
    }
    let mut value = String::new();
    value.push(first);
    let mut cur = step_over(Ghost(s), ic, ic, first);
    assert(value@ =~= s.subrange(ic.pointer as int, cur.pointer as int));
    while cur.pointer < len && ident_char(bytes[cur.pointer] as char)
        invariant
            s == source_text(input),
            bytes@ == input.spec_bytes(),
            len == s.len(),
            cursor_fits(s, ic),
            ic.pointer < cur.pointer <= len,
            cur.loc == walk(ic.loc, s.subrange(ic.pointer as int, cur.pointer as int)),
            value@ == s.subrange(ic.pointer as int, cur.pointer as int),
            ident_end(s, ic.pointer + 1) == ident_end(s, cur.pointer as int),
        decreases len - cur.pointer,
    {
        let c = bytes[cur.pointer] as char;
        value.push(c);
        cur = step_over(Ghost(s), ic, cur, c);
        assert(value@ =~= s.subrange(ic.pointer as int, cur.pointer as int));
    }
    Some((Token { value, kind: TokenKind::Identifier, loc: ic.loc }, cur))
}

} // verus!
