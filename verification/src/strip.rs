//! Removing escape sequences from a string: the way back from a rendering
//! to the text it was made from.

use vstd::prelude::*;
use crate::escape::{decimal, escape, joined, ESC};

verus! {

/// True for the ASCII digits.
pub open spec fn is_digit(c: char) -> bool {
    '0' <= c <= '9'
}

/// Reads the codes of an escape sequence in `s` from position `at` on:
/// groups of digits with a `;` between neighbours, closed by `m`. The result
/// is the position behind the `m`, or 0 when the characters do not have that
/// form. `seen_digit` says whether the group at hand has a digit yet.
pub open spec fn params_end(s: Seq<char>, at: int, seen_digit: bool) -> int
    decreases s.len() - at,
{
    if at < 0 || at >= s.len() {
        0
    } else if is_digit(s[at]) {
        params_end(s, at + 1, true)
    } else if seen_digit && s[at] == ';' {
        params_end(s, at + 1, false)
    } else if seen_digit && s[at] == 'm' {
        at + 1
    } else {
        0
    }
}

/// Length of the escape sequence `ESC [ digits (; digits)* m` that `s` begins
/// with, or 0 when it begins with none.
pub open spec fn token_len(s: Seq<char>) -> int {
    if s.len() >= 2 && s[0] == ESC && s[1] == '[' {
        params_end(s, 2, false)
    } else {
        0
    }
}

/// `s` without its escape sequences, read from left to right.
pub open spec fn strip(s: Seq<char>) -> Seq<char>
    decreases s.len(),
{
    if s.len() == 0 {
        s
    } else if 0 < token_len(s) <= s.len() {
        strip(s.skip(token_len(s)))
    } else {
        seq![s[0]] + strip(s.skip(1))
    }
}

/// No escape sequence begins anywhere in `s`.
pub open spec fn token_free(s: Seq<char>) -> bool {
    forall|i: int| 0 <= i < s.len() ==> token_len(#[trigger] s.skip(i)) == 0
}

/// A decimal number is one or more digits.
pub proof fn lemma_decimal_digits(n: nat)
    ensures
        decimal(n).len() > 0,
        forall|i: int| 0 <= i < decimal(n).len() ==> is_digit(#[trigger] decimal(n)[i]),
    decreases n,
{
    if n >= 10 {
        lemma_decimal_digits(n / 10);
    }
}

/// Reading over a stretch of digits leaves a group with a digit in it.
proof fn lemma_params_digits(s: Seq<char>, from: int, to: int, seen_digit: bool)
    requires
        0 <= from < to <= s.len(),
        forall|i: int| from <= i < to ==> is_digit(#[trigger] s[i]),
    ensures
        params_end(s, from, seen_digit) == params_end(s, to, true),
    decreases to - from,
{
    if from + 1 < to {
        lemma_params_digits(s, from + 1, to, true);
    }
}

/// Reading over joined codes ends behind them, in a group with a digit.
proof fn lemma_params_joined(pre: Seq<char>, codes: Seq<u8>, post: Seq<char>)
    requires
        codes.len() > 0,
    ensures
        params_end(pre + joined(codes) + post, pre.len() as int, false) == params_end(
            pre + joined(codes) + post,
            (pre.len() + joined(codes).len()) as int,
            true,
        ),
        joined(codes).len() > 0,
    decreases codes.len(),
{
    let s = pre + joined(codes) + post;
    let last = decimal(codes.last() as nat);
    lemma_decimal_digits(codes.last() as nat);
    if codes.len() == 1 {
        assert(codes.last() == codes[0]);
        lemma_params_digits(s, pre.len() as int, (pre.len() + last.len()) as int, false);
    } else {
        let init = joined(codes.drop_last());
        let tail = seq![';'] + last + post;
        lemma_params_joined(pre, codes.drop_last(), tail);
        assert(pre + init + tail =~= s);
        let at = (pre.len() + init.len()) as int;
        assert(s[at] == ';');
        assert forall|i: int| at + 1 <= i < at + 1 + last.len() implies is_digit(
            #[trigger] s[i],
        ) by {
            assert(s[i] == last[i - at - 1]);
        }
        lemma_params_digits(s, at + 1, at + 1 + last.len(), false);
    }
}

/// A string that begins with an escape sequence of this crate begins with a
/// token of exactly that length.
pub proof fn lemma_token_len_escape(codes: Seq<u8>, rest: Seq<char>)
    requires
        codes.len() > 0,
    ensures
        token_len(escape(codes) + rest) == escape(codes).len(),
{
    let pre = seq![ESC, '['];
    let post = seq!['m'] + rest;
    let s = escape(codes) + rest;
    lemma_params_joined(pre, codes, post);
    assert(pre + joined(codes) + post =~= s);
    assert(s[0] == ESC && s[1] == '[');
    assert(s[(2 + joined(codes).len()) as int] == 'm');
}

/// Stripping drops an escape sequence at the front.
pub proof fn lemma_strip_escape(codes: Seq<u8>, rest: Seq<char>)
    requires
        codes.len() > 0,
    ensures
        strip(escape(codes) + rest) == strip(rest),
{
    lemma_token_len_escape(codes, rest);
    let s = escape(codes) + rest;
    assert(s.skip(escape(codes).len() as int) =~= rest);
}

/// What follows a text does not change how its codes are read, as long as it
/// is nothing or begins with the escape character.
proof fn lemma_params_ignore_rest(lit: Seq<char>, rest: Seq<char>, at: int, seen_digit: bool)
    requires
        0 <= at <= lit.len(),
        rest.len() == 0 || rest[0] == ESC,
    ensures
        params_end(lit + rest, at, seen_digit) == params_end(lit, at, seen_digit),
    decreases lit.len() - at,
{
    let s = lit + rest;
    if at < lit.len() {
        assert(s[at] == lit[at]);
        if is_digit(lit[at]) {
            lemma_params_ignore_rest(lit, rest, at + 1, true);
        } else if seen_digit && lit[at] == ';' {
            lemma_params_ignore_rest(lit, rest, at + 1, false);
        }
    } else if rest.len() > 0 {
        assert(s[at] == ESC);
    }
}

/// Nor does it change whether the text begins with a token.
proof fn lemma_token_len_ignore_rest(lit: Seq<char>, rest: Seq<char>)
    requires
        lit.len() > 0,
        rest.len() == 0 || rest[0] == ESC,
    ensures
        token_len(lit + rest) == token_len(lit),
{
    let s = lit + rest;
    assert(s[0] == lit[0]);
    if lit.len() >= 2 {
        assert(s[1] == lit[1]);
        lemma_params_ignore_rest(lit, rest, 2, false);
    } else if rest.len() > 0 {
        assert(s[1] == ESC);
    } else {
        assert(s =~= lit);
    }
}

/// Stripping keeps a text without tokens, and goes on behind it.
pub proof fn lemma_strip_literal(lit: Seq<char>, rest: Seq<char>)
    requires
        token_free(lit),
        rest.len() == 0 || rest[0] == ESC,
    ensures
        strip(lit + rest) == lit + strip(rest),
    decreases lit.len(),
{
    if lit.len() == 0 {
        assert(lit + rest =~= rest);
        assert(lit + strip(rest) =~= strip(rest));
    } else {
        let s = lit + rest;
        assert(lit.skip(0) =~= lit);
        lemma_token_len_ignore_rest(lit, rest);
        assert forall|i: int| 0 <= i < lit.skip(1).len() implies token_len(
            #[trigger] lit.skip(1).skip(i),
        ) == 0 by {
            assert(lit.skip(1).skip(i) =~= lit.skip(i + 1));
        }
        lemma_strip_literal(lit.skip(1), rest);
        assert(s.skip(1) =~= lit.skip(1) + rest);
        assert(seq![s[0]] + (lit.skip(1) + strip(rest)) =~= lit + strip(rest));
    }
}

} // verus!
