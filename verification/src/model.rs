//! The mathematical model of a styled buffer: a text, the style marks
//! recorded in it, and the string that rendering produces from the two.

use vstd::prelude::*;
use crate::escape::{escape, reset};
use crate::text::{
    byte_len, is_boundary, lemma_boundary_append, lemma_boundary_ends, lemma_boundary_in_range,
    lemma_encode_concat, lemma_span_append_end, lemma_span_append_inside, lemma_span_empty, span,
};

verus! {

/// A style directive: from byte `offset` of the text on, apply `code`.
pub struct Mark {
    pub offset: nat,
    pub code: u8,
}

/// The marks that share one offset, merged: their codes in the order in which
/// they were recorded.
pub struct Run {
    pub offset: nat,
    pub codes: Seq<u8>,
}

/// A text together with the marks recorded in it, oldest first.
pub struct StyledText {
    pub text: Seq<char>,
    pub marks: Seq<Mark>,
}

/// Groups neighbouring marks with equal offsets into runs.
pub open spec fn runs(marks: Seq<Mark>) -> Seq<Run>
    decreases marks.len(),
{
    if marks.len() == 0 {
        Seq::empty()
    } else {
        let before = runs(marks.drop_last());
        let mark = marks.last();
        if before.len() > 0 && before.last().offset == mark.offset {
            before.drop_last().push(
                Run { offset: mark.offset, codes: before.last().codes.push(mark.code) },
            )
        } else {
            before.push(Run { offset: mark.offset, codes: seq![mark.code] })
        }
    }
}

/// Where the literal text that follows run `k` stops: at the next run, or at
/// the end of the text.
pub open spec fn literal_end(text: Seq<char>, rs: Seq<Run>, k: int) -> int {
    if k + 1 < rs.len() {
        rs[k + 1].offset as int
    } else {
        byte_len(text) as int
    }
}

/// The literal text that follows run `k`.
pub open spec fn literal(text: Seq<char>, rs: Seq<Run>, k: int) -> Seq<char> {
    span(text, rs[k].offset as int, literal_end(text, rs, k))
}

/// The first `n` runs written out: for each its escape sequence, then the
/// literal text that follows it.
pub open spec fn styled(text: Seq<char>, rs: Seq<Run>, n: int) -> Seq<char>
    decreases n,
{
    if n <= 0 {
        Seq::empty()
    } else {
        styled(text, rs, n - 1) + escape(rs[n - 1].codes) + literal(text, rs, n - 1)
    }
}

/// Runs as they come out of a well-formed buffer: on boundaries of the text,
/// at strictly increasing offsets, none without a code.
pub open spec fn runs_wf(text: Seq<char>, rs: Seq<Run>) -> bool {
    &&& forall|k: int| 0 <= k < rs.len() ==> is_boundary(text, (#[trigger] rs[k]).offset as int)
    &&& forall|k: int| 0 <= k < rs.len() ==> (#[trigger] rs[k]).codes.len() > 0
    &&& forall|j: int, k: int|
        0 <= j < k < rs.len() ==> (#[trigger] rs[j]).offset < (#[trigger] rs[k]).offset
}

impl StyledText {
    /// No text and no marks.
    pub open spec fn empty() -> Self {
        StyledText { text: Seq::empty(), marks: Seq::empty() }
    }

    /// The offset at which the next mark would be recorded: the length of
    /// the text in bytes.
    pub open spec fn end(self) -> nat {
        byte_len(self.text)
    }

    /// Every mark sits inside the text, on a character boundary, and no
    /// mark sits before an older one.
    pub open spec fn wf(self) -> bool {
        &&& forall|i: int|
            0 <= i < self.marks.len() ==> (#[trigger] self.marks[i]).offset <= self.end()
        &&& forall|i: int|
            0 <= i < self.marks.len() ==> is_boundary(
                self.text,
                (#[trigger] self.marks[i]).offset as int,
            )
        &&& forall|i: int, j: int|
            0 <= i <= j < self.marks.len() ==> (#[trigger] self.marks[i]).offset <= (
            #[trigger] self.marks[j]).offset
    }

    /// The buffer after `more` is appended to its text.
    pub open spec fn with_text(self, more: Seq<char>) -> Self {
        StyledText { text: self.text + more, marks: self.marks }
    }

    /// The buffer after `code` is recorded at the end of its text.
    pub open spec fn with_code(self, code: u8) -> Self {
        StyledText {
            text: self.text,
            marks: self.marks.push(Mark { offset: self.end(), code }),
        }
    }

    /// The buffer after each of `codes` is recorded in turn, with no text
    /// appended in between.
    pub open spec fn with_codes(self, codes: Seq<u8>) -> Self
        decreases codes.len(),
    {
        if codes.len() == 0 {
            self
        } else {
            self.with_codes(codes.drop_last()).with_code(codes.last())
        }
    }

    /// The marks of the buffer, grouped by offset.
    pub open spec fn runs(self) -> Seq<Run> {
        runs(self.marks)
    }

    /// Every run written out: its escape sequence, then the text up to the
    /// next run or to the end of the text.
    pub open spec fn body(self) -> Seq<char> {
        styled(self.text, self.runs(), self.runs().len() as int)
    }

    /// The rendered string. Without marks it is the text itself. With marks
    /// it is the body followed by a final reset; text in front of the first
    /// mark is not part of it.
    pub open spec fn rendered(self) -> Seq<char> {
        if self.marks.len() == 0 {
            self.text
        } else {
            self.body() + reset()
        }
    }

    /// The part of the text that the rendering carries: all of it when
    /// there are no marks, else what lies behind the first mark.
    pub open spec fn carried(self) -> Seq<char> {
        if self.marks.len() == 0 {
            self.text
        } else {
            span(self.text, self.marks[0].offset as int, self.end() as int)
        }
    }

    /// True when the newest mark sits at the end of the text, so that the
    /// next mark would join its run.
    pub open spec fn at_end(self) -> bool {
        self.marks.len() > 0 && self.marks.last().offset == self.end()
    }

    /// The codes recorded at the end of the text so far.
    pub open spec fn pending(self) -> Seq<u8> {
        if self.at_end() {
            self.runs().last().codes
        } else {
            Seq::empty()
        }
    }

    /// What rendering writes for the runs that lie before the end of the
    /// text.
    pub open spec fn settled(self) -> Seq<char> {
        if self.at_end() {
            styled(self.text, self.runs(), self.runs().len() - 1)
        } else {
            self.body()
        }
    }
}

/// The runs of a non-empty list of marks end in a run at the newest mark's
/// offset, and there are no more runs than marks.
pub proof fn lemma_runs_last(marks: Seq<Mark>)
    requires
        marks.len() > 0,
    ensures
        0 < runs(marks).len() <= marks.len(),
        runs(marks).last().offset == marks.last().offset,
        runs(marks).last().codes.len() > 0,
        runs(marks).last().codes.last() == marks.last().code,
    decreases marks.len(),
{
    let init = marks.drop_last();
    if init.len() > 0 {
        lemma_runs_last(init);
    } else {
        assert(runs(init).len() == 0);
    }
}

/// The first run sits at the first mark's offset.
pub proof fn lemma_runs_first(marks: Seq<Mark>)
    requires
        marks.len() > 0,
    ensures
        runs(marks).len() > 0,
        runs(marks)[0].offset == marks[0].offset,
    decreases marks.len(),
{
    let init = marks.drop_last();
    lemma_runs_last(marks);
    if init.len() > 0 {
        lemma_runs_first(init);
        lemma_runs_last(init);
    } else {
        assert(runs(init).len() == 0);
    }
}

/// How the runs change when one more mark is recorded.
pub proof fn lemma_runs_push(marks: Seq<Mark>, mark: Mark)
    ensures
        marks.len() > 0 && marks.last().offset == mark.offset ==> runs(marks.push(mark))
            == runs(marks).drop_last().push(
            Run { offset: mark.offset, codes: runs(marks).last().codes.push(mark.code) },
        ),
        !(marks.len() > 0 && marks.last().offset == mark.offset) ==> runs(marks.push(mark))
            == runs(marks).push(Run { offset: mark.offset, codes: seq![mark.code] }),
{
    assert(marks.push(mark).drop_last() =~= marks);
    if marks.len() > 0 {
        lemma_runs_last(marks);
    }
}

/// The runs of a well-formed buffer are well formed.
pub proof fn lemma_runs_wf(b: StyledText)
    requires
        b.wf(),
    ensures
        runs_wf(b.text, b.runs()),
    decreases b.marks.len(),
{
    if b.marks.len() > 0 {
        let init = StyledText { text: b.text, marks: b.marks.drop_last() };
        lemma_runs_wf(init);
        lemma_runs_push(init.marks, b.marks.last());
        assert(init.marks.push(b.marks.last()) =~= b.marks);
        if init.marks.len() > 0 {
            lemma_runs_last(init.marks);
            assert(init.marks.last() == b.marks[b.marks.len() - 2]);
        }
    }
}

/// Appending text keeps a buffer well formed.
pub proof fn lemma_with_text_wf(b: StyledText, more: Seq<char>)
    requires
        b.wf(),
    ensures
        b.with_text(more).wf(),
{
    lemma_encode_concat(b.text, more);
    assert forall|i: int| 0 <= i < b.marks.len() implies is_boundary(
        b.text + more,
        (#[trigger] b.marks[i]).offset as int,
    ) by {
        lemma_boundary_append(b.text, more, b.marks[i].offset as int);
    }
}

/// Recording a code keeps a buffer well formed.
pub proof fn lemma_with_code_wf(b: StyledText, code: u8)
    requires
        b.wf(),
    ensures
        b.with_code(code).wf(),
{
    lemma_boundary_ends(b.text);
}

/// What is written for the first `n` runs depends only on those runs and on
/// where the literal text after each of them stops.
pub proof fn lemma_styled_agree(
    text1: Seq<char>,
    rs1: Seq<Run>,
    text2: Seq<char>,
    rs2: Seq<Run>,
    n: int,
)
    requires
        n <= rs1.len(),
        n <= rs2.len(),
        forall|k: int| 0 <= k < n ==> rs1[k] == rs2[k],
        forall|k: int| 0 <= k < n ==> literal(text1, rs1, k) == literal(text2, rs2, k),
    ensures
        styled(text1, rs1, n) == styled(text2, rs2, n),
    decreases n,
{
    if n > 0 {
        lemma_styled_agree(text1, rs1, text2, rs2, n - 1);
    }
}

/// Codes recorded one after the other at the end of the text join the run
/// that is open there, or start a new one.
pub proof fn lemma_runs_with_codes(b: StyledText, codes: Seq<u8>)
    requires
        codes.len() > 0,
    ensures
        b.with_codes(codes).text == b.text,
        b.with_codes(codes).marks.len() == b.marks.len() + codes.len(),
        b.with_codes(codes).at_end(),
        b.with_codes(codes).runs() == (if b.at_end() {
            b.runs().drop_last()
        } else {
            b.runs()
        }).push(Run { offset: b.end(), codes: b.pending() + codes }),
    decreases codes.len(),
{
    let init = codes.drop_last();
    let code = codes.last();
    let before = b.with_codes(init);
    let mark = Mark { offset: b.end(), code };
    assert(before.text == b.text && before.marks.len() == b.marks.len() + init.len()) by {
        if init.len() > 0 {
            lemma_runs_with_codes(b, init);
        }
    }
    lemma_runs_push(before.marks, mark);
    if init.len() > 0 {
        lemma_runs_with_codes(b, init);
        assert((b.pending() + init).push(code) =~= b.pending() + codes);
    } else {
        assert(before == b);
        if b.at_end() {
            assert(b.pending().push(code) =~= b.pending() + codes);
        } else {
            assert(seq![code] =~= b.pending() + codes);
        }
    }
}

/// The body of a buffer after codes are recorded at its end and text is
/// appended behind them: what was settled before, one escape sequence with
/// the codes that were pending and the new ones, and the new text.
pub proof fn lemma_body_with_codes(b: StyledText, codes: Seq<u8>, more: Seq<char>)
    requires
        b.wf(),
        codes.len() > 0,
    ensures
        b.with_codes(codes).with_text(more).body() == b.settled() + escape(b.pending() + codes)
            + more,
{
    let text = b.text;
    let rs = b.runs();
    let marked = b.with_codes(codes);
    let after = marked.with_text(more);
    let rs1 = after.runs();
    let n = rs1.len() - 1;
    lemma_runs_with_codes(b, codes);
    lemma_runs_wf(b);
    if b.marks.len() > 0 {
        lemma_runs_last(b.marks);
    }
    vstd::utf8::encode_utf8_valid_utf8(text);
    lemma_boundary_ends(text);
    assert forall|k: int| 0 <= k < n implies literal(after.text, rs1, k) == literal(
        text,
        rs,
        k,
    ) by {
        if k + 1 < rs.len() {
            assert(rs[k].offset < rs[k + 1].offset);
            assert(is_boundary(text, rs[k + 1].offset as int));
        }
        lemma_boundary_in_range(vstd::utf8::encode_utf8(text), rs[k].offset as int);
        lemma_boundary_in_range(vstd::utf8::encode_utf8(text), literal_end(text, rs, k));
        lemma_span_append_inside(text, more, rs[k].offset as int, literal_end(text, rs, k));
    }
    lemma_styled_agree(after.text, rs1, text, rs, n);
    lemma_span_append_end(text, more, b.end() as int);
    lemma_span_empty(text, b.end() as int);
}

} // verus!
