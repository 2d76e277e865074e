//! Lines of a source text, and the lines that are shown with a finding.
//!
//! A text is taken as its bytes. A line ends at a line feed or at the end of
//! the text; a carriage return directly before the line feed belongs to the
//! line ending. A text that ends with a line ending has no empty last line.

use vstd::prelude::*;
use vstd::string::StringSliceAdditionalSpecFns;
use vstd::utf8::{
    encode_utf8_valid_utf8, is_char_boundary, is_char_boundary_iff_is_leading_byte,
    is_char_boundary_iff_not_is_continuation_byte, is_char_boundary_start_end_of_seq,
    pop_first_scalar, valid_utf8, valid_utf8_split,
};

verus! {

/// The byte that ends a line.
pub const LINE_FEED: u8 = 0x0a;

/// The byte that may precede a line feed as part of the line ending.
pub const CARRIAGE_RETURN: u8 = 0x0d;

/// How many lines past the last line of a finding are shown with it.
pub const TRAILING_CONTEXT: usize = 2;

/// The place of one line in a text: the offsets of its first byte and of the
/// byte after its last, the line ending left out.
#[derive(Clone, Copy, Debug, PartialEq, Eq, Structural)]
pub struct LineSpan {
    pub start: usize,
    pub end: usize,
}

/// One line that is shown with a finding: its number, counted from 1, and
/// its place in the text.
#[derive(Clone, Copy, Debug, PartialEq, Eq, Structural)]
pub struct ContextLine {
    pub number: usize,
    pub span: LineSpan,
}

/// The offset of the first line feed at or after `from`, or the length of
/// the text if there is none.
pub open spec fn next_feed(text: Seq<u8>, from: int) -> int
    decreases text.len() - from,
{
    if from < 0 || from >= text.len() {
        text.len() as int
    } else if text[from] == LINE_FEED {
        from
    } else {
        next_feed(text, from + 1)
    }
}

/// The line that starts at `from` and runs up to `stop`, which is the offset
/// of its line feed or the end of the text.
pub open spec fn span_between(text: Seq<u8>, from: int, stop: int) -> LineSpan {
    if stop < text.len() && from < stop && text[stop - 1] == CARRIAGE_RETURN {
        LineSpan { start: from as usize, end: (stop - 1) as usize }
    } else {
        LineSpan { start: from as usize, end: stop as usize }
    }
}

/// The lines of `text` that start at or after `from`, where `from` is the
/// start of a line.
pub open spec fn lines_from(text: Seq<u8>, from: int) -> Seq<LineSpan>
    decreases text.len() - from,
    via lines_from_decreases
{
    if 0 <= from < text.len() {
        let stop = next_feed(text, from);
        let rest = if stop < text.len() {
            lines_from(text, stop + 1)
        } else {
            Seq::empty()
        };
        seq![span_between(text, from, stop)] + rest
    } else {
        Seq::empty()
    }
}

#[via_fn]
proof fn lines_from_decreases(text: Seq<u8>, from: int) {
    if 0 <= from < text.len() {
        lemma_next_feed_bounds(text, from);
    }
}

/// The lines of `text`, in order.
pub open spec fn lines(text: Seq<u8>) -> Seq<LineSpan> {
    lines_from(text, 0)
}

/// The lines shown for a finding on lines `start` to `end`: those numbered
/// from `start` to `end + 2`, as far as the text has them.
pub open spec fn context_of(lines: Seq<LineSpan>, start: int, end: int) -> Seq<ContextLine> {
    let first = if start < 1 { 1 } else { start };
    let last = if end + TRAILING_CONTEXT < lines.len() { end + TRAILING_CONTEXT } else { lines.len() as int };
    if first > last {
        Seq::empty()
    } else {
        Seq::new(
            (last - first + 1) as nat,
            |i: int| ContextLine { number: (first + i) as usize, span: lines[first + i - 1] },
        )
    }
}

/// The next line feed is not before the place the search starts from, and
/// not past the end of the text.
pub proof fn lemma_next_feed_bounds(text: Seq<u8>, from: int)
    requires
        0 <= from <= text.len(),
    ensures
        from <= next_feed(text, from) <= text.len(),
        next_feed(text, from) < text.len() ==> text[next_feed(text, from)] == LINE_FEED,
        forall|i: int| from <= i < next_feed(text, from) ==> text[i] != LINE_FEED,
    decreases text.len() - from,
{
    if from < text.len() && text[from] != LINE_FEED {
        lemma_next_feed_bounds(text, from + 1);
    }
}

/// Every line lies inside the text, at or after the place its search
/// started from; no line holds a line feed; and there are no more lines than
/// bytes.
pub proof fn lemma_lines_in_text(text: Seq<u8>, from: int)
    requires
        0 <= from <= text.len() <= usize::MAX,
    ensures
        forall|i: int|
            0 <= i < lines_from(text, from).len() ==> from <= (#[trigger] lines_from(
                text,
                from,
            )[i]).start <= lines_from(text, from)[i].end <= text.len(),
        forall|i: int, k: int|
            0 <= i < lines_from(text, from).len() && (#[trigger] lines_from(text, from)[i]).start
                <= k < lines_from(text, from)[i].end ==> #[trigger] text[k] != LINE_FEED,
        lines_from(text, from).len() <= text.len() - from,
    decreases text.len() - from,
{
    if from < text.len() {
        let stop = next_feed(text, from);
        lemma_next_feed_bounds(text, from);
        if stop < text.len() {
            lemma_lines_in_text(text, stop + 1);
        }
        // The first line ends at `stop`; the others are those after it.
        let rest = if stop < text.len() {
            lines_from(text, stop + 1)
        } else {
            Seq::empty()
        };
        let all = lines_from(text, from);
        assert forall|i: int| 0 <= i < all.len() implies from <= (#[trigger] all[i]).start
            <= all[i].end <= text.len() by {
            if i > 0 {
                assert(all[i] == rest[i - 1]);
            }
        }
        assert forall|i: int, k: int|
            0 <= i < all.len() && (#[trigger] all[i]).start <= k < all[i].end implies #[trigger] text[k]
            != LINE_FEED by {
            if i > 0 {
                assert(all[i] == rest[i - 1]);
            }
        }
    }
}

/// In a text that is valid UTF-8, a byte below 128 is a character of its
/// own: a character starts at it, and another one, or the end, comes after.
proof fn lemma_boundaries_around_ascii(text: Seq<u8>, index: int)
    requires
        valid_utf8(text),
        0 <= index < text.len(),
        text[index] <= 0x7f,
    ensures
        is_char_boundary(text, index),
        is_char_boundary(text, index + 1),
{
    is_char_boundary_iff_is_leading_byte(text, index);
    valid_utf8_split(text, index);
    let suffix = text.subrange(index, text.len() as int);
    let after = text.subrange(index + 1, text.len() as int);
    assert(pop_first_scalar(suffix) =~= after);
    if index + 1 < text.len() {
        is_char_boundary_start_end_of_seq(after);
        is_char_boundary_iff_not_is_continuation_byte(after, 0);
        is_char_boundary_iff_not_is_continuation_byte(text, index + 1);
    } else {
        is_char_boundary_start_end_of_seq(text);
    }
}

/// In a text that is valid UTF-8 every line starts and ends between two
/// characters, so that it can be cut out of the text.
pub proof fn lemma_lines_on_char_boundaries(text: Seq<u8>, from: int)
    requires
        valid_utf8(text),
        0 <= from <= text.len() <= usize::MAX,
        is_char_boundary(text, from),
    ensures
        forall|i: int|
            0 <= i < lines_from(text, from).len() ==> is_char_boundary(
                text,
                (#[trigger] lines_from(text, from)[i]).start as int,
            ) && is_char_boundary(text, lines_from(text, from)[i].end as int),
    decreases text.len() - from,
{
    if from < text.len() {
        let stop = next_feed(text, from);
        lemma_next_feed_bounds(text, from);
        is_char_boundary_start_end_of_seq(text);
        if stop < text.len() {
            lemma_boundaries_around_ascii(text, stop);
            lemma_lines_on_char_boundaries(text, stop + 1);
            if from < stop && text[stop - 1] == CARRIAGE_RETURN {
                lemma_boundaries_around_ascii(text, stop - 1);
            }
        }
        // The first line ends at `stop`; the others are those after it.
        let rest = if stop < text.len() {
            lines_from(text, stop + 1)
        } else {
            Seq::empty()
        };
        let all = lines_from(text, from);
        assert forall|i: int| 0 <= i < all.len() implies is_char_boundary(
            text,
            (#[trigger] all[i]).start as int,
        ) && is_char_boundary(text, all[i].end as int) by {
            if i > 0 {
                assert(all[i] == rest[i - 1]);
            }
        }
    }
}

/// Only lines that the text has are shown, in order and without gaps, and
/// never more than the lines of the finding and two more.
pub proof fn lemma_context_within_text(lines: Seq<LineSpan>, start: int, end: int)
    requires
        lines.len() <= usize::MAX,
    ensures
        context_of(lines, start, end).len() <= lines.len(),
        start >= 1 ==> context_of(lines, start, end).len() <= if end + TRAILING_CONTEXT < start {
            0
        } else {
            end + TRAILING_CONTEXT - start + 1
        },
        forall|i: int|
            0 <= i < context_of(lines, start, end).len() ==> ({
                let shown = #[trigger] context_of(lines, start, end)[i];
                &&& 1 <= shown.number <= lines.len()
                &&& start <= shown.number <= end + TRAILING_CONTEXT
                &&& shown.span == lines[shown.number - 1]
                &&& i > 0 ==> shown.number == context_of(lines, start, end)[i - 1].number + 1
            }),
{
}

/// A finding whose lines the text has is shown with all of them, its first
/// line first.
pub proof fn lemma_context_covers_finding(lines: Seq<LineSpan>, start: int, end: int)
    requires
        1 <= start <= end <= lines.len() <= usize::MAX,
    ensures
        context_of(lines, start, end).len() >= end - start + 1,
        forall|i: int|
            0 <= i <= end - start ==> (#[trigger] context_of(lines, start, end)[i]) == (ContextLine {
                number: (start + i) as usize,
                span: lines[start + i - 1],
            }),
{
}

/// A finding so near the end of the text that the lines after it run out
/// is shown with the lines that are left: from its first line to the last
/// line of the text.
pub proof fn lemma_context_stops_at_end(lines: Seq<LineSpan>, start: int, end: int)
    requires
        1 <= start <= lines.len() <= usize::MAX,
        end + TRAILING_CONTEXT >= lines.len(),
    ensures
        context_of(lines, start, end).len() == lines.len() - start + 1,
        context_of(lines, start, end).last().number == lines.len(),
        context_of(lines, start, end).last().span == lines.last(),
{
}

/// Finds the lines of a text.
pub fn line_spans(text: &[u8]) -> (found: Vec<LineSpan>)
    ensures
        found@ == lines(text@),
        forall|i: int|
            0 <= i < found@.len() ==> (#[trigger] found@[i]).start <= found@[i].end <= text@.len(),
        forall|i: int, k: int|
            0 <= i < found@.len() && (#[trigger] found@[i]).start <= k < found@[i].end
                ==> #[trigger] text@[k] != LINE_FEED,
{
    // The length of a text fits a machine integer.
    let size = text.len();
    proof {
        assert(text@.len() == size);
        lemma_lines_in_text(text@, 0);
    }
    let mut found: Vec<LineSpan> = Vec::new();
    let mut from: usize = 0;
    while from < text.len()
        invariant
            from <= text@.len(),
            lines(text@) == found@ + lines_from(text@, from as int),
        decreases text@.len() - from,
    {
        let mut stop = from;
        while stop < text.len() && text[stop] != LINE_FEED
            invariant
                from <= stop <= text@.len(),
                next_feed(text@, from as int) == next_feed(text@, stop as int),
            decreases text@.len() - stop,
        {
            stop += 1;
        }
        let end = if stop < text.len() && from < stop && text[stop - 1] == CARRIAGE_RETURN {
            stop - 1
        } else {
            stop
        };
        found.push(LineSpan { start: from, end });
        if stop < text.len() {
            from = stop + 1;
        } else {
            from = stop;
        }
    }
    found
}

/// Picks the lines that are shown with a finding on lines `start` to `end`.
/// Lines that the text does not have are left out, so a finding near the end
/// of the text is shown with fewer lines, or with none.
pub fn context(lines: &Vec<LineSpan>, start: usize, end: usize) -> (shown: Vec<ContextLine>)
    ensures
        shown@ == context_of(lines@, start as int, end as int),
{
    let first: usize = if start < 1 { 1 } else { start };
    let last: usize = if end < lines.len() && lines.len() - end > TRAILING_CONTEXT {
        end + TRAILING_CONTEXT
    } else {
        lines.len()
    };
    let mut shown: Vec<ContextLine> = Vec::new();
    if first > last {
        return shown;
    }
    let mut number: usize = first;
    while number <= last
        invariant
            first == if start < 1 { 1 } else { start as int },
            last == if end + TRAILING_CONTEXT < lines@.len() { end + TRAILING_CONTEXT } else { lines@.len() as int },
            1 <= first <= number <= last + 1,
            last <= lines@.len(),
            shown@.len() == number - first,
            forall|i: int| 0 <= i < shown@.len() ==> shown@[i] == (ContextLine {
                number: (first + i) as usize,
                span: lines@[first + i - 1],
            }),
        decreases last + 1 - number,
    {
        shown.push(ContextLine { number, span: lines[number - 1] });
        if number == last {
            return shown;
        }
        number += 1;
    }
    shown
}

/// Cuts one line out of a text. The line must be one of the lines of the
/// text, or any stretch that starts and ends between two characters.
pub(crate) fn line_text<'a>(content: &'a str, line: LineSpan) -> (text: &'a str)
    requires
        line.start <= line.end <= content.spec_bytes().len(),
        is_char_boundary(content.spec_bytes(), line.start as int),
        is_char_boundary(content.spec_bytes(), line.end as int),
    ensures
        text.spec_bytes() == content.spec_bytes().subrange(line.start as int, line.end as int),
{
    let ghost bytes = content.spec_bytes();
    proof {
        encode_utf8_valid_utf8(content@);
    }
    let (head, _) = content.split_at(line.end);
    proof {
        let front = bytes.subrange(0, line.end as int);
        valid_utf8_split(bytes, line.end as int);
        is_char_boundary_start_end_of_seq(front);
        if 0 < line.start < line.end {
            is_char_boundary_iff_is_leading_byte(bytes, line.start as int);
            is_char_boundary_iff_is_leading_byte(front, line.start as int);
        }
    }
    let (_, text) = head.split_at(line.start);
    text
}

} // verus!
