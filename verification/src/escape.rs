//! The wire format of a Select Graphic Rendition escape sequence:
//! `ESC [ code ; code ; ... m`, every code in decimal.

use vstd::prelude::*;

verus! {

/// The escape character that opens every sequence.
pub const ESC: char = '\x1b';

/// Token that opens an escape sequence.
pub const ANSI_ESCAPE_START: &'static str = "\x1b[";

/// Token that closes an escape sequence.
pub const ANSI_ESCAPE_END: &'static str = "m";

/// The ASCII digit for `d`, meaningful for `d < 10`.
pub open spec fn digit(d: nat) -> char {
    (d + 48) as u8 as char
}

/// `n` written in decimal, most significant digit first, without leading
/// zeros.
pub open spec fn decimal(n: nat) -> Seq<char>
    decreases n,
{
    if n < 10 {
        seq![digit(n)]
    } else {
        decimal(n / 10).push(digit(n % 10))
    }
}

/// The codes in decimal, in order, with a `;` between neighbours.
pub open spec fn joined(codes: Seq<u8>) -> Seq<char>
    decreases codes.len(),
{
    if codes.len() == 0 {
        Seq::empty()
    } else if codes.len() == 1 {
        decimal(codes[0] as nat)
    } else {
        joined(codes.drop_last()) + seq![';'] + decimal(codes.last() as nat)
    }
}

/// The start token followed by the joined codes: an escape sequence that is
/// still open.
pub open spec fn opened(codes: Seq<u8>) -> Seq<char> {
    seq![ESC, '['] + joined(codes)
}

/// One complete escape sequence carrying `codes`.
pub open spec fn escape(codes: Seq<u8>) -> Seq<char> {
    opened(codes) + seq!['m']
}

/// The sequence that restores the terminal's default rendering: `ESC [ 0 m`.
pub open spec fn reset() -> Seq<char> {
    escape(seq![0u8])
}

/// `reset()` spelled out character by character.
pub proof fn lemma_reset_chars()
    ensures
        reset() =~= seq![ESC, '[', '0', 'm'],
{
    assert(seq![0u8].len() == 1);
    assert(joined(seq![0u8]) =~= seq!['0']);
}

/// Adding a code to a non-empty list adds `;` and the code's digits.
pub proof fn lemma_opened_push(codes: Seq<u8>, code: u8)
    requires
        codes.len() > 0,
    ensures
        opened(codes.push(code)) =~= opened(codes) + seq![';'] + decimal(code as nat),
{
    assert(codes.push(code).drop_last() =~= codes);
}

/// An open sequence with a single code is the start token and its digits.
pub proof fn lemma_opened_single(code: u8)
    ensures
        opened(seq![code]) =~= seq![ESC, '['] + decimal(code as nat),
{
    assert(seq![code].len() == 1);
}

/// The ASCII digit for `d`.
pub(crate) fn digit_char(d: u8) -> (c: char)
    requires
        d < 10,
    ensures
        c == digit(d as nat),
{
    (48u8 + d) as char
}

/// Appends `code` in decimal to `out`.
pub(crate) fn push_decimal(out: &mut String, code: u8)
    ensures
        final(out)@ == old(out)@ + decimal(code as nat),
{
    proof {
        reveal_with_fuel(decimal, 3);
    }
    if code >= 100 {
        out.push(digit_char(code / 100));
    }
    if code >= 10 {
        out.push(digit_char(code / 10 % 10));
    }
    out.push(digit_char(code % 10));
}

} // verus!
