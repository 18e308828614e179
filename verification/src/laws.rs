//! What holds of every rendering, stated over the model of a buffer.

use vstd::prelude::*;
use crate::escape::{escape, lemma_reset_chars, reset, ESC};
use crate::model::{
    lemma_body_with_codes, lemma_runs_first, lemma_runs_wf, lemma_runs_with_codes,
    lemma_with_code_wf, lemma_with_text_wf, literal, literal_end, runs_wf, styled, Run,
    StyledText,
};
use crate::strip::{lemma_strip_escape, lemma_strip_literal, strip, token_free};
use crate::text::{
    byte_len, is_boundary, lemma_boundary_ends, lemma_boundary_in_range, lemma_encode_concat,
    lemma_span_all, lemma_span_concat, span,
};

verus! {

/// A buffer without marks renders as its text, character for character.
pub proof fn lemma_plain_text_renders_unchanged(b: StyledText)
    requires
        b.marks.len() == 0,
    ensures
        b.rendered() == b.text,
{
}

/// A buffer with at least one mark renders to a string that ends in the
/// reset sequence `ESC [ 0 m`.
pub proof fn lemma_rendering_ends_with_reset(b: StyledText)
    requires
        b.marks.len() > 0,
    ensures
        reset() == seq![ESC, '[', '0', 'm'],
        reset().is_suffix_of(b.rendered()),
{
    lemma_reset_chars();
    let out = b.rendered();
    assert(out.subrange(out.len() - reset().len(), out.len() as int) =~= reset());
}

/// Rendering depends on nothing but the text and the marks: two renderings
/// of one buffer are the same string.
pub proof fn lemma_rendering_is_repeatable(b: StyledText, first: Seq<char>, second: Seq<char>)
    requires
        first == b.rendered(),
        second == b.rendered(),
    ensures
        first == second,
{
}

/// Codes recorded one after the other, with no text appended in between,
/// come out as a single escape sequence: the codes already pending at that
/// place, then the new ones in the order of the calls, joined by `;`. The
/// text appended afterwards follows it verbatim.
pub proof fn lemma_codes_without_text_between_merge(
    b: StyledText,
    codes: Seq<u8>,
    more: Seq<char>,
)
    requires
        b.wf(),
        codes.len() > 0,
    ensures
        b.with_codes(codes).with_text(more).rendered() == b.settled() + escape(
            b.pending() + codes,
        ) + more + reset(),
{
    lemma_runs_with_codes(b, codes);
    lemma_body_with_codes(b, codes, more);
}

/// A code, then some text, then another code come out as two escape
/// sequences with exactly that text between them.
pub proof fn lemma_text_between_codes_splits(
    b: StyledText,
    first: u8,
    between: Seq<char>,
    second: u8,
)
    requires
        b.wf(),
        between.len() > 0,
    ensures
        b.with_code(first).with_text(between).with_code(second).rendered() == b.settled() + escape(
            b.pending().push(first),
        ) + between + escape(seq![second]) + reset(),
{
    let one = seq![first];
    let two = seq![second];
    assert(b.with_codes(one) == b.with_code(first)) by {
        assert(one.drop_last() =~= Seq::<u8>::empty());
        assert(b.with_codes(one.drop_last()) == b);
    }
    let mid = b.with_code(first).with_text(between);
    assert(mid.with_codes(two) == mid.with_code(second)) by {
        assert(two.drop_last() =~= Seq::<u8>::empty());
        assert(mid.with_codes(two.drop_last()) == mid);
    }
    lemma_runs_with_codes(b, one);
    lemma_body_with_codes(b, one, between);
    lemma_with_code_wf(b, first);
    lemma_with_text_wf(b.with_code(first), between);
    assert(!mid.at_end()) by {
        lemma_encode_concat(b.text, between);
        lemma_nonempty_has_bytes(between);
    }
    lemma_runs_with_codes(mid, two);
    lemma_body_with_codes(mid, two, Seq::empty());
    assert(mid.with_code(second).with_text(Seq::empty()) == mid.with_code(second)) by {
        assert(mid.text + Seq::<char>::empty() =~= mid.text);
    }
    assert(b.pending() + one =~= b.pending().push(first));
    assert(mid.pending() + two =~= two);
}

/// Text that holds a character takes up at least one byte.
proof fn lemma_nonempty_has_bytes(text: Seq<char>)
    requires
        text.len() > 0,
    ensures
        byte_len(text) > 0,
{
    vstd::utf8::encode_utf8_first_scalar(text);
}

/// The literal texts that follow the first `n` runs, one after the other.
spec fn literals(text: Seq<char>, rs: Seq<Run>, n: int) -> Seq<char>
    decreases n,
{
    if n <= 0 {
        Seq::empty()
    } else {
        literals(text, rs, n - 1) + literal(text, rs, n - 1)
    }
}

/// Stripping what is written for the first `n` runs leaves their literal
/// texts.
proof fn lemma_strip_styled(text: Seq<char>, rs: Seq<Run>, n: int, rest: Seq<char>)
    requires
        0 <= n <= rs.len(),
        forall|k: int| 0 <= k < rs.len() ==> (#[trigger] rs[k]).codes.len() > 0,
        forall|k: int| 0 <= k < n ==> token_free(#[trigger] literal(text, rs, k)),
        rest.len() == 0 || rest[0] == ESC,
    ensures
        strip(styled(text, rs, n) + rest) == literals(text, rs, n) + strip(rest),
    decreases n,
{
    if n == 0 {
        assert(styled(text, rs, n) + rest =~= rest);
        assert(literals(text, rs, n) + strip(rest) =~= strip(rest));
    } else {
        let codes = rs[n - 1].codes;
        let lit = literal(text, rs, n - 1);
        let behind = escape(codes) + (lit + rest);
        assert(styled(text, rs, n) + rest =~= styled(text, rs, n - 1) + behind);
        assert(behind[0] == ESC);
        lemma_strip_styled(text, rs, n - 1, behind);
        lemma_strip_escape(codes, lit + rest);
        lemma_strip_literal(lit, rest);
        assert(literals(text, rs, n - 1) + (lit + strip(rest)) =~= literals(text, rs, n)
            + strip(rest));
    }
}

/// The literal texts of the first `n` runs make up the text from the first
/// run to where the last of them stops.
proof fn lemma_literals_span(text: Seq<char>, rs: Seq<Run>, n: int)
    requires
        runs_wf(text, rs),
        0 < n <= rs.len(),
    ensures
        literals(text, rs, n) == span(text, rs[0].offset as int, literal_end(text, rs, n - 1)),
    decreases n,
{
    lemma_boundary_ends(text);
    vstd::utf8::encode_utf8_valid_utf8(text);
    let from = rs[n - 1].offset as int;
    let to = literal_end(text, rs, n - 1);
    assert(is_boundary(text, from));
    if n < rs.len() {
        assert(rs[n - 1].offset < rs[n].offset);
        assert(is_boundary(text, rs[n].offset as int));
    }
    lemma_boundary_in_range(vstd::utf8::encode_utf8(text), from);
    if n == 1 {
        assert(literals(text, rs, 0) + literal(text, rs, 0) =~= literal(text, rs, 0));
    } else {
        lemma_literals_span(text, rs, n - 1);
        assert(rs[0].offset < rs[n - 1].offset);
        assert(is_boundary(text, rs[0].offset as int));
        lemma_span_concat(text, rs[0].offset as int, from, to);
    }
}

/// No escape sequence begins in any stretch of text that the rendering
/// writes out in one piece: in the whole text when there are no marks, else
/// in the literal text behind each run.
pub open spec fn literals_token_free(b: StyledText) -> bool {
    &&& b.marks.len() == 0 ==> token_free(b.text)
    &&& forall|k: int|
        0 <= k < b.runs().len() ==> token_free(#[trigger] literal(b.text, b.runs(), k))
}

/// Taking the escape sequences out of a rendering leaves the text that the
/// rendering carries, as long as that text holds no escape sequence of its
/// own.
pub proof fn lemma_strip_leaves_carried_text(b: StyledText)
    requires
        b.wf(),
        literals_token_free(b),
    ensures
        strip(b.rendered()) == b.carried(),
{
    let none = Seq::<char>::empty();
    assert(strip(none) =~= none);
    if b.marks.len() == 0 {
        lemma_strip_literal(b.text, none);
        assert(b.text + none =~= b.text);
    } else {
        let rs = b.runs();
        let n = rs.len() as int;
        lemma_runs_wf(b);
        lemma_runs_first(b.marks);
        lemma_reset_chars();
        lemma_strip_styled(b.text, rs, n, reset());
        assert(strip(reset()) =~= none) by {
            lemma_strip_escape(seq![0u8], none);
            assert(reset() + none =~= reset());
        }
        lemma_literals_span(b.text, rs, n);
        assert(literals(b.text, rs, n) + none =~= b.carried());
    }
}

/// Taking the escape sequences out of a rendering gives back the text, for
/// every buffer whose rendering carries the whole text and whose text holds
/// no escape sequence of its own: the buffer has no marks, or its first mark
/// sits in front of all text.
pub proof fn lemma_strip_restores_text(b: StyledText)
    requires
        b.wf(),
        b.marks.len() > 0 ==> b.marks[0].offset == 0,
        literals_token_free(b),
    ensures
        strip(b.rendered()) == b.text,
{
    lemma_strip_leaves_carried_text(b);
    lemma_span_all(b.text);
}

} // verus!
