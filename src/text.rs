use vstd::prelude::*;
use vstd::string::StringExecFns;
use vstd::string::StringSliceAdditionalSpecFns;
use vstd::utf8::{
    decode_utf8, encode_utf8, encode_utf8_decode_utf8, is_char_boundary, length_of_first_scalar,
    pop_first_scalar, valid_utf8,
};

verus! {

/// Relies on `String::push`: appends one character at the end.
pub assume_specification[ String::push ](s: &mut String, ch: char)
    ensures
        final(s)@ == old(s)@.push(ch),
;

/// A byte sequence read one character per byte.
pub open spec fn byte_text(b: Seq<u8>) -> Seq<char> {
    b.map_values(|x: u8| x as char)
}

/// Text as the lexer reads it: one character per byte of its UTF-8 encoding.
pub open spec fn read_bytes(text: Seq<char>) -> Seq<char> {
    byte_text(encode_utf8(text))
}

/// The source text as the lexer reads it.
pub open spec fn source_text(input: &str) -> Seq<char> {
    read_bytes(input@)
}

/// The decimal digit character for `d < 10`.
pub open spec fn digit_char(d: nat) -> char {
    (d + 48) as char
}

/// The decimal spelling of `n`, without leading zeros.
pub open spec fn decimal(n: nat) -> Seq<char>
    decreases n,
{
    if n < 10 {
        seq![digit_char(n)]
    } else {
        decimal(n / 10).push(digit_char(n % 10))
    }
}

/// Appends the decimal spelling of `n`.
pub fn push_decimal(s: &mut String, n: usize)
    ensures
        final(s)@ == old(s)@ + decimal(n as nat),
    decreases n,
{
    if n >= 10 {
        push_decimal(s, n / 10);
    }
    let d: u8 = (n % 10) as u8;
    s.push((d + 48) as char);
    assert(s@ =~= old(s)@ + decimal(n as nat));
}

/// Appends the characters of `t`.
pub fn push_text(s: &mut String, t: &String)
    ensures
        final(s)@ == old(s)@ + t@,
{
    s.append(t.as_str());
}

/// The text whose UTF-8 encoding, read one character per byte, is `v`.
pub open spec fn text_of_bytes(v: Seq<char>) -> Seq<char> {
    decode_utf8(v.map_values(|c: char| c as u8))
}

/// Reading `t` byte by byte and decoding the bytes again gives `t` back.
pub proof fn lemma_text_of_read_bytes(t: Seq<char>)
    ensures
        text_of_bytes(read_bytes(t)) == t,
{
    let b = encode_utf8(t);
    assert(read_bytes(t).map_values(|c: char| c as u8) =~= b);
    encode_utf8_decode_utf8(t);
}

/// Reading two texts in turn byte by byte is reading them together.
pub proof fn lemma_read_bytes_concat(a: Seq<char>, b: Seq<char>)
    ensures
        read_bytes(a + b) == read_bytes(a) + read_bytes(b),
{
    lemma_encode_concat(a, b);
    assert(read_bytes(a + b) =~= read_bytes(a) + read_bytes(b));
}

/// Encoding two texts in turn is encoding them together.
pub proof fn lemma_encode_concat(a: Seq<char>, b: Seq<char>)
    ensures
        encode_utf8(a + b) == encode_utf8(a) + encode_utf8(b),
    decreases a.len(),
{
    if a.len() == 0 {
        assert(a + b =~= b);
    } else {
        assert((a + b).drop_first() =~= a.drop_first() + b);
        lemma_encode_concat(a.drop_first(), b);
    }
}

/// After a whole character that starts on a boundary comes another boundary.
pub proof fn lemma_boundary_after_scalar(b: Seq<u8>, i: int)
    requires
        valid_utf8(b),
        is_char_boundary(b, i),
        0 <= i < b.len(),
    ensures
        is_char_boundary(b, i + length_of_first_scalar(b.subrange(i, b.len() as int))),
    decreases b.len(),
{
    let l0 = length_of_first_scalar(b);
    let rest = pop_first_scalar(b);
    assert(vstd::utf8::valid_first_scalar(b) && valid_utf8(rest));
    assert(1 <= l0 <= b.len());
    assert(rest.len() == b.len() - l0);
    if i == 0 {
        assert(b.subrange(0, b.len() as int) =~= b);
        assert(is_char_boundary(rest, 0));
        assert(is_char_boundary(b, l0));
    } else {
        assert(is_char_boundary(rest, i - l0));
        assert(i - l0 >= 0);
        if i - l0 < rest.len() {
            assert(rest.subrange(i - l0, rest.len() as int) =~= b.subrange(i, b.len() as int));
            lemma_boundary_after_scalar(rest, i - l0);
            let l = length_of_first_scalar(b.subrange(i, b.len() as int));
            assert(is_char_boundary(rest, i - l0 + l));
            assert(is_char_boundary(b, i + l));
        } else {
            assert(i == b.len());
        }
    }
}

/// The part of `input` between two character boundaries.
pub fn slice_between(input: &str, a: usize, c: usize) -> (r: &str)
    requires
        a <= c <= input.spec_bytes().len(),
        is_char_boundary(input.spec_bytes(), a as int),
        is_char_boundary(input.spec_bytes(), c as int),
    ensures
        r.spec_bytes() == input.spec_bytes().subrange(a as int, c as int),
{
    let ghost b = input.spec_bytes();
    proof {
        broadcast use vstd::utf8::encode_utf8_valid_utf8;
        vstd::utf8::valid_utf8_split(b, c as int);
        let left = b.subrange(0, c as int);
        vstd::utf8::is_char_boundary_start_end_of_seq(left);
        if a < c {
            vstd::utf8::is_char_boundary_iff_not_is_continuation_byte(b, a as int);
            vstd::utf8::is_char_boundary_iff_not_is_continuation_byte(left, a as int);
        }
    }
    let (left, _) = input.split_at(c);
    let (_, mid) = left.split_at(a);
    proof {
        assert(mid.spec_bytes() =~= b.subrange(a as int, c as int));
    }
    mid
}

} // verus!
