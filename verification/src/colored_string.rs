//! The styled buffer: text is appended, style directives are recorded at the
//! current end of the text, and `colored` renders both into one string.

use vstd::prelude::*;
use crate::color::Color;
use crate::escape::{
    lemma_opened_push, lemma_opened_single, lemma_reset_chars, opened, push_decimal, reset,
    ANSI_ESCAPE_END, ANSI_ESCAPE_START,
};
use crate::model::{
    lemma_runs_last, lemma_runs_push, lemma_styled_agree, lemma_with_code_wf,
    lemma_with_text_wf, runs, styled, Mark, StyledText,
};
use crate::text::{is_boundary, len_bytes, lemma_boundary_ends, substring};

verus! {

/// Length of an escape sequence that carries a single one-digit code.
const ANSI_ESCAPE_LEN: usize = 4;

/// Struct that indicates the position at which a ANSI code should be located
/// in the colored string output.
struct CodeMarker {
    index: usize,
    code: u8,
}

/// Colored string builder.
pub struct ColoredString {
    raw: String,
    code_markers: Vec<CodeMarker>,
}

/// The marks that a list of markers stands for.
spec fn marks_of(markers: Seq<CodeMarker>) -> Seq<Mark> {
    Seq::new(
        markers.len(),
        |i: int| Mark { offset: markers[i].index as nat, code: markers[i].code },
    )
}

/// The code of a format directive: `code` to switch the attribute on,
/// `code + 20` to switch it off.
pub open spec fn format_code(code: u8, enable: bool) -> u8 {
    if enable {
        code
    } else {
        (code + 20) as u8
    }
}

/// The room to set aside for a rendering: the text and one short escape
/// sequence per marker and for the final reset. `None` when that is more than
/// a string can hold.
fn rendered_capacity(text_len: usize, markers: usize) -> (hint: Option<usize>)
    ensures
        hint is Some <==> text_len + (markers + 1) * ANSI_ESCAPE_LEN <= isize::MAX,
        hint is Some ==> hint->0 == text_len + (markers + 1) * ANSI_ESCAPE_LEN,
{
    let total: u128 = text_len as u128 + (markers as u128 + 1) * (ANSI_ESCAPE_LEN as u128);
    if total <= isize::MAX as u128 {
        Some(total as usize)
    } else {
        None
    }
}

impl View for ColoredString {
    type V = StyledText;

    closed spec fn view(&self) -> StyledText {
        StyledText { text: self.raw@, marks: marks_of(self.code_markers@) }
    }
}

impl Default for ColoredString {
    fn default() -> (s: Self)
        ensures
            s@ == StyledText::empty(),
            s@.wf(),
    {
        Self::new()
    }
}

impl ColoredString {
    /// Every marker holds the length that the text had when it was pushed,
    /// so the markers sit between characters and in the order of the pushes.
    #[verifier::type_invariant]
    spec fn well_formed(self) -> bool {
        self@.wf()
    }

    /// Create a new colored string.
    pub fn new() -> (s: Self)
        ensures
            s@ == StyledText::empty(),
            s@.wf(),
    {
        let s = ColoredString { raw: String::new(), code_markers: Vec::new() };
        assert(s@.marks =~= Seq::<Mark>::empty());
        s
    }

    /// Create a new colored string with a specific capacity: room for that
    /// many bytes of text, which cannot be more than `isize::MAX`.
    pub fn with_capacity(capacity: usize) -> (s: ColoredString)
        requires
            capacity <= isize::MAX,
        ensures
            s@ == StyledText::empty(),
            s@.wf(),
    {
        let s = ColoredString { raw: String::with_capacity(capacity), code_markers: Vec::new() };
        assert(s@.marks =~= Seq::<Mark>::empty());
        s
    }

    /// Records `code` at the current end of the text.
    fn push_code(&mut self, code: u8)
        ensures
            final(self)@ == old(self)@.with_code(code),
            final(self)@.wf(),
    {
        proof {
            use_type_invariant(&*self);
        }
        let color_marker = CodeMarker { index: len_bytes(self.raw.as_str()), code };
        let mut code_markers: Vec<CodeMarker> = Vec::new();
        std::mem::swap(&mut code_markers, &mut self.code_markers);
        code_markers.push(color_marker);
        proof {
            lemma_with_code_wf(old(self)@, code);
            assert(marks_of(code_markers@) =~= old(self)@.with_code(code).marks);
        }
        self.code_markers = code_markers;
    }

    /// Records the code of `color` on top of `base`.
    fn push_color_code(&mut self, color: &Color, base: u8)
        requires
            base <= 188,
        ensures
            final(self)@ == old(self)@.with_code((base + color.value()) as u8),
            final(self)@.wf(),
    {
        self.push_code(base + color.int_value())
    }

    /// Records `code` to switch an attribute on, `code + 20` to switch it
    /// off.
    fn push_format_code(&mut self, code: u8, enable: bool)
        requires
            code <= 235,
        ensures
            final(self)@ == old(self)@.with_code(format_code(code, enable)),
            final(self)@.wf(),
    {
        let mut code_ = code;

        if !enable {
            code_ += 20
        }
        self.push_code(code_)
    }

    /// Reset the formatting to the default on from this stage of the string.
    pub fn reset(&mut self)
        ensures
            final(self)@ == old(self)@.with_code(0),
            final(self)@.wf(),
    {
        self.push_code(0)
    }

    /// Set the foreground color from this stage of the string.
    pub fn set_fg(&mut self, color: &Color)
        ensures
            final(self)@ == old(self)@.with_code(color.foreground()),
            final(self)@.wf(),
    {
        self.push_color_code(color, 30);
    }

    /// Set the background color from this stage of the string.
    pub fn set_bg(&mut self, color: &Color)
        ensures
            final(self)@ == old(self)@.with_code(color.background()),
            final(self)@.wf(),
    {
        self.push_color_code(color, 40);
    }

    /// Enable or disable the text style to faint one from this stage of the string.
    pub fn set_faint(&mut self, enable: bool)
        ensures
            final(self)@ == old(self)@.with_code(format_code(1, enable)),
            final(self)@.wf(),
    {
        self.push_format_code(1, enable)
    }

    /// Enable or disable the text style to bold one from this stage of the string.
    pub fn set_bold(&mut self, enable: bool)
        ensures
            final(self)@ == old(self)@.with_code(format_code(2, enable)),
            final(self)@.wf(),
    {
        self.push_format_code(2, enable)
    }

    /// Enable or disable the text style to italic one from this stage of the string.
    pub fn set_italic(&mut self, enable: bool)
        ensures
            final(self)@ == old(self)@.with_code(format_code(3, enable)),
            final(self)@.wf(),
    {
        self.push_format_code(3, enable)
    }

    /// Enable or disable the text style to underline one from this stage of the string.
    pub fn set_underline(&mut self, enable: bool)
        ensures
            final(self)@ == old(self)@.with_code(format_code(4, enable)),
            final(self)@.wf(),
    {
        self.push_format_code(4, enable)
    }

    /// Enable or disable the text slow blinking from this stage of the string.
    pub fn set_slow_blink(&mut self, enable: bool)
        ensures
            final(self)@ == old(self)@.with_code(format_code(5, enable)),
            final(self)@.wf(),
    {
        self.push_format_code(5, enable)
    }

    /// Enable or disable the text fast blinking from this stage of the string.
    pub fn set_fast_blink(&mut self, enable: bool)
        ensures
            final(self)@ == old(self)@.with_code(format_code(6, enable)),
            final(self)@.wf(),
    {
        self.push_format_code(6, enable)
    }

    /// Push a character to the colored string.
    pub fn push(&mut self, ch: char)
        ensures
            final(self)@ == old(self)@.with_text(seq![ch]),
            final(self)@.wf(),
    {
        proof {
            use_type_invariant(&*self);
        }
        // The text grows outside the buffer, which stays well formed
        // throughout.
        let mut this = ColoredString::new();
        std::mem::swap(self, &mut this);
        let ColoredString { mut raw, code_markers } = this;
        raw.push(ch);
        proof {
            lemma_with_text_wf(old(self)@, seq![ch]);
            assert(raw@ =~= old(self)@.text + seq![ch]);
        }
        *self = ColoredString { raw, code_markers };
    }

    /// Push a string to the colored string.
    pub fn push_str(&mut self, string: &str)
        ensures
            final(self)@ == old(self)@.with_text(string@),
            final(self)@.wf(),
    {
        proof {
            use_type_invariant(&*self);
        }
        let mut this = ColoredString::new();
        std::mem::swap(self, &mut this);
        let ColoredString { mut raw, code_markers } = this;
        raw.append(string);
        proof {
            lemma_with_text_wf(old(self)@, string@);
        }
        *self = ColoredString { raw, code_markers };
    }

    /// Get the raw content of the string without colors or any formatting.
    #[inline]
    pub fn raw(&self) -> (text: String)
        ensures
            text@ == self@.text,
    {
        self.raw.clone()
    }

    /// Get the colored string. The colored output will always be so the colors
    /// are reset at the end of the string.
    ///
    /// Formatting codes set one after the other share one escape sequence.
    /// Text pushed before the first formatting code is not part of the
    /// colored string; a string without any formatting code comes out as it
    /// is.
    pub fn colored(&self) -> (out: String)
        ensures
            out@ == self@.rendered(),
            self@.marks.len() == 0 ==> out@ == self@.text,
            self@.marks.len() > 0 ==> reset().is_suffix_of(out@),
    {
        proof {
            use_type_invariant(self);
        }
        if self.code_markers.len() == 0 {
            return self.raw();
        }
        let raw = self.raw.as_str();
        let text_len = len_bytes(raw);
        let count = self.code_markers.len();
        let mut index: usize = 0;
        let mut ret = match rendered_capacity(text_len, count) {
            Some(capacity) => String::with_capacity(capacity),
            None => String::new(),
        };
        let ghost model = self@;
        let ghost text = model.text;
        let ghost marks = model.marks;
        let mut i: usize = 0;
        while i < count
            invariant
                model == self@,
                model.wf(),
                text == model.text,
                marks == model.marks,
                raw@ == text,
                count == self.code_markers.len(),
                count == marks.len(),
                i <= count,
                i == 0 ==> ret@.len() == 0,
                i > 0 ==> index == marks[i - 1].offset,
                i > 0 ==> ret@ == styled(
                    text,
                    runs(marks.take(i as int)),
                    runs(marks.take(i as int)).len() - 1,
                ) + opened(runs(marks.take(i as int)).last().codes),
            decreases count - i,
        {
            let color_marker = &self.code_markers[i];
            let ghost seen = marks.take(i as int);
            let ghost rs = runs(seen);
            let ghost next = runs(marks.take(i + 1));
            proof {
                assert(marks.take(i + 1) =~= seen.push(marks[i as int]));
                lemma_runs_push(seen, marks[i as int]);
                assert(is_boundary(text, model.marks[i as int].offset as int));
                if i > 0 {
                    lemma_runs_last(seen);
                    assert(seen.last() == marks[i - 1]);
                    assert(is_boundary(text, model.marks[i - 1].offset as int));
                    lemma_styled_agree(text, next, text, rs, rs.len() - 1);
                }
                reveal_strlit("\x1b[");
                reveal_strlit("m");
            }
            if i == 0 {
                ret.append(ANSI_ESCAPE_START);
                proof {
                    lemma_opened_single(color_marker.code);
                }
            } else if index != color_marker.index {
                ret.append(ANSI_ESCAPE_END);
                ret.append(substring(raw, index, color_marker.index));
                ret.append(ANSI_ESCAPE_START);
                proof {
                    lemma_opened_single(color_marker.code);
                }
            } else {
                ret.push(';');
                proof {
                    lemma_opened_push(rs.last().codes, color_marker.code);
                }
            }
            push_decimal(&mut ret, color_marker.code);

            index = color_marker.index;
            i += 1;
        }

        proof {
            assert(marks.take(count as int) =~= marks);
            lemma_runs_last(marks);
            lemma_boundary_ends(text);
            assert(is_boundary(text, model.marks[count - 1].offset as int));
            lemma_reset_chars();
            reveal_strlit("\x1b[");
            reveal_strlit("m");
        }
        ret.append(ANSI_ESCAPE_END);
        ret.append(substring(raw, index, text_len));

        ret.append(ANSI_ESCAPE_START);
        ret.push('0');
        ret.append(ANSI_ESCAPE_END);

        proof {
            assert(ret@ =~= model.body() + reset());
            assert(ret@.subrange(ret@.len() - reset().len(), ret@.len() as int) =~= reset());
        }
        ret
    }
}

} // verus!
