//! Positions inside a text measured in bytes of its UTF-8 encoding, and the
//! characters that lie between two such positions.

use vstd::prelude::*;
use vstd::string::StringSliceAdditionalSpecFns;
use vstd::utf8::*;

verus! {

/// Length in bytes of the UTF-8 encoding of `text`.
pub open spec fn byte_len(text: Seq<char>) -> nat {
    encode_utf8(text).len()
}

/// True when byte position `offset` of the encoded `text` falls between two
/// characters, at the very start, or at the very end.
pub open spec fn is_boundary(text: Seq<char>, offset: int) -> bool {
    is_char_boundary(encode_utf8(text), offset)
}

/// The characters of `text` whose encoding occupies the bytes `from..to`.
pub open spec fn span(text: Seq<char>, from: int, to: int) -> Seq<char> {
    decode_utf8(encode_utf8(text).subrange(from, to))
}

/// Encoding distributes over concatenation.
pub proof fn lemma_encode_concat(a: Seq<char>, b: Seq<char>)
    ensures
        encode_utf8(a + b) =~= encode_utf8(a) + encode_utf8(b),
        byte_len(a + b) == byte_len(a) + byte_len(b),
    decreases a.len(),
{
    if a.len() == 0 {
        assert(a + b =~= b);
    } else {
        assert((a + b).drop_first() =~= a.drop_first() + b);
        lemma_encode_concat(a.drop_first(), b);
    }
}

/// Decoding distributes over concatenation of valid encodings.
pub proof fn lemma_decode_concat(x: Seq<u8>, y: Seq<u8>)
    requires
        valid_utf8(x),
        valid_utf8(y),
    ensures
        decode_utf8(x + y) =~= decode_utf8(x) + decode_utf8(y),
{
    let a = decode_utf8(x);
    let b = decode_utf8(y);
    decode_utf8_encode_utf8(x);
    decode_utf8_encode_utf8(y);
    lemma_encode_concat(a, b);
    encode_utf8_decode_utf8(a + b);
}

/// A boundary lies inside the encoding.
pub proof fn lemma_boundary_in_range(bytes: Seq<u8>, index: int)
    requires
        valid_utf8(bytes),
        is_char_boundary(bytes, index),
    ensures
        0 <= index <= bytes.len(),
    decreases bytes.len(),
{
    if index != 0 {
        lemma_boundary_in_range(pop_first_scalar(bytes), index - length_of_first_scalar(bytes));
    }
}

/// Both ends of a text are boundaries.
pub proof fn lemma_boundary_ends(text: Seq<char>)
    ensures
        is_boundary(text, 0),
        is_boundary(text, byte_len(text) as int),
{
    encode_utf8_valid_utf8(text);
    is_char_boundary_start_end_of_seq(encode_utf8(text));
}

/// A boundary of a prefix is a boundary of the whole encoding.
proof fn lemma_boundary_of_prefix(x: Seq<u8>, y: Seq<u8>, index: int)
    requires
        valid_utf8(x),
        valid_utf8(y),
        is_char_boundary(x, index),
    ensures
        is_char_boundary(x + y, index),
    decreases x.len(),
{
    valid_utf8_concat(x, y);
    if index != 0 {
        lemma_boundary_in_range(x, index);
        assert(pop_first_scalar(x + y) =~= pop_first_scalar(x) + y);
        lemma_boundary_of_prefix(pop_first_scalar(x), y, index - length_of_first_scalar(x));
    }
}

/// Text appended at the end keeps every boundary, and the old end is one.
pub proof fn lemma_boundary_append(text: Seq<char>, more: Seq<char>, offset: int)
    requires
        is_boundary(text, offset),
    ensures
        is_boundary(text + more, offset),
{
    encode_utf8_valid_utf8(text);
    encode_utf8_valid_utf8(more);
    lemma_encode_concat(text, more);
    lemma_boundary_of_prefix(encode_utf8(text), encode_utf8(more), offset);
}

/// What lies behind a boundary is an encoding of its own, in which every
/// later boundary is a boundary again.
proof fn lemma_boundary_in_suffix(bytes: Seq<u8>, from: int, to: int)
    requires
        valid_utf8(bytes),
        is_char_boundary(bytes, from),
        is_char_boundary(bytes, to),
        from <= to,
    ensures
        valid_utf8(bytes.subrange(from, bytes.len() as int)),
        is_char_boundary(bytes.subrange(from, bytes.len() as int), to - from),
    decreases bytes.len(),
{
    lemma_boundary_in_range(bytes, from);
    lemma_boundary_in_range(bytes, to);
    if from == 0 {
        assert(bytes.subrange(0, bytes.len() as int) =~= bytes);
    } else {
        let rest = pop_first_scalar(bytes);
        let n = length_of_first_scalar(bytes);
        lemma_boundary_in_range(rest, from - n);
        lemma_boundary_in_suffix(rest, from - n, to - n);
        assert(rest.subrange(from - n, rest.len() as int) =~= bytes.subrange(
            from,
            bytes.len() as int,
        ));
    }
}

/// The bytes between two boundaries are a valid encoding.
pub proof fn lemma_span_valid(text: Seq<char>, from: int, to: int)
    requires
        is_boundary(text, from),
        is_boundary(text, to),
        from <= to,
    ensures
        0 <= from <= to <= byte_len(text),
        valid_utf8(encode_utf8(text).subrange(from, to)),
        encode_utf8(span(text, from, to)) == encode_utf8(text).subrange(from, to),
{
    let bytes = encode_utf8(text);
    encode_utf8_valid_utf8(text);
    lemma_boundary_in_range(bytes, from);
    lemma_boundary_in_range(bytes, to);
    lemma_boundary_in_suffix(bytes, from, to);
    let tail = bytes.subrange(from, bytes.len() as int);
    valid_utf8_split(tail, to - from);
    assert(tail.subrange(0, to - from) =~= bytes.subrange(from, to));
    decode_utf8_encode_utf8(bytes.subrange(from, to));
}

/// Nothing lies between a position and itself.
pub proof fn lemma_span_empty(text: Seq<char>, at: int)
    requires
        0 <= at <= byte_len(text),
    ensures
        span(text, at, at) =~= Seq::<char>::empty(),
{
    assert(encode_utf8(text).subrange(at, at) =~= Seq::<u8>::empty());
    assert(encode_utf8(Seq::<char>::empty()) =~= Seq::<u8>::empty());
    encode_utf8_decode_utf8(Seq::<char>::empty());
}

/// From the start to the end lies the whole text.
pub proof fn lemma_span_all(text: Seq<char>)
    ensures
        span(text, 0, byte_len(text) as int) == text,
{
    let bytes = encode_utf8(text);
    assert(bytes.subrange(0, bytes.len() as int) =~= bytes);
    encode_utf8_decode_utf8(text);
}

/// A span that ends inside `text` does not see what is appended to it.
pub proof fn lemma_span_append_inside(text: Seq<char>, more: Seq<char>, from: int, to: int)
    requires
        0 <= from <= to <= byte_len(text),
    ensures
        span(text + more, from, to) == span(text, from, to),
{
    lemma_encode_concat(text, more);
    assert((encode_utf8(text) + encode_utf8(more)).subrange(from, to) =~= encode_utf8(
        text,
    ).subrange(from, to));
}

/// A span that runs to the end of `text` grows by exactly what is appended.
pub proof fn lemma_span_append_end(text: Seq<char>, more: Seq<char>, from: int)
    requires
        is_boundary(text, from),
    ensures
        span(text + more, from, byte_len(text + more) as int) =~= span(
            text,
            from,
            byte_len(text) as int,
        ) + more,
{
    let x = encode_utf8(text);
    let y = encode_utf8(more);
    encode_utf8_valid_utf8(text);
    encode_utf8_valid_utf8(more);
    lemma_encode_concat(text, more);
    lemma_boundary_in_range(x, from);
    lemma_boundary_ends(text);
    lemma_span_valid(text, from, x.len() as int);
    assert((x + y).subrange(from, (x + y).len() as int) =~= x.subrange(from, x.len() as int) + y);
    lemma_decode_concat(x.subrange(from, x.len() as int), y);
    encode_utf8_decode_utf8(more);
}

/// Two neighbouring spans make up the span around them.
pub proof fn lemma_span_concat(text: Seq<char>, from: int, mid: int, to: int)
    requires
        is_boundary(text, from),
        is_boundary(text, mid),
        is_boundary(text, to),
        from <= mid <= to,
    ensures
        span(text, from, to) =~= span(text, from, mid) + span(text, mid, to),
{
    let bytes = encode_utf8(text);
    lemma_span_valid(text, from, mid);
    lemma_span_valid(text, mid, to);
    assert(bytes.subrange(from, to) =~= bytes.subrange(from, mid) + bytes.subrange(mid, to));
    lemma_decode_concat(bytes.subrange(from, mid), bytes.subrange(mid, to));
}

/// Length of `s` in bytes.
pub(crate) fn len_bytes(s: &str) -> (n: usize)
    ensures
        n == byte_len(s@),
{
    s.as_bytes().len()
}

/// The part of `s` between the byte positions `from` and `to`, both of which
/// fall between characters.
pub(crate) fn substring<'a>(s: &'a str, from: usize, to: usize) -> (part: &'a str)
    requires
        is_boundary(s@, from as int),
        is_boundary(s@, to as int),
        from <= to,
    ensures
        part@ == span(s@, from as int, to as int),
{
    proof {
        encode_utf8_valid_utf8(s@);
        lemma_boundary_in_suffix(s.spec_bytes(), from as int, to as int);
    }
    let (_, tail) = s.split_at(from);
    let (part, _) = tail.split_at(to - from);
    proof {
        let bytes = s.spec_bytes();
        lemma_boundary_in_range(bytes, to as int);
        assert(tail.spec_bytes().subrange(0, to - from) =~= bytes.subrange(from as int, to as int));
        encode_utf8_decode_utf8(part@);
    }
    part
}

} // verus!
