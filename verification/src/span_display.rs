//! Human-readable rendering of a span as `line:column..line:column`.
use vstd::prelude::*;
use vstd::string::StringExecFns;

use crate::location::LineColumn;
use crate::text::{decimal, push_decimal};

verus! {

/// The text of a span from `start` to `end`: lines as they are, the start
/// column counted from 1 and the end column as the (inclusive) 1-indexed
/// column of the last character, which is the 0-indexed end column itself.
pub open spec fn span_text(start: LineColumn, end: LineColumn) -> Seq<char> {
    decimal(start.line as nat) + ":"@ + decimal(start.column as nat + 1) + ".."@ + decimal(
        end.line as nat,
    ) + ":"@ + decimal(end.column as nat)
}

/// The rendering of a span splits at its `..` into a part that depends on
/// the start alone, `start_line:start_col` with the column counted from 1,
/// and a part that depends on the end alone, `end_line:end_col`: whatever
/// the start, the text ends with `..`, the end line, `:`, and the end column
/// as it is.
pub proof fn law_span_text_parts(start: LineColumn, end: LineColumn)
    ensures
        ({
            let text = span_text(start, end);
            let head = decimal(start.line as nat) + ":"@ + decimal(start.column as nat + 1);
            let tail = decimal(end.line as nat) + ":"@ + decimal(end.column as nat);
            &&& text.len() == head.len() + 2 + tail.len()
            &&& text.take(head.len() as int) == head
            &&& text.subrange(head.len() as int, head.len() as int + 2) == ".."@
            &&& text.skip(head.len() as int + 2) == tail
        }),
{
    reveal_strlit(":");
    reveal_strlit("..");
    let head = decimal(start.line as nat) + ":"@ + decimal(start.column as nat + 1);
    let tail = decimal(end.line as nat) + ":"@ + decimal(end.column as nat);
    let text = span_text(start, end);
    assert(text =~= head + ".."@ + tail);
    assert(text.take(head.len() as int) =~= head);
    assert(text.subrange(head.len() as int, head.len() as int + 2) =~= ".."@);
    assert(text.skip(head.len() as int + 2) =~= tail);
}

/// The text of a span ends with `:` and the end column, whatever the start:
/// the last field is the end column alone.
pub proof fn law_span_text_ends_with_end_column(start: LineColumn, end: LineColumn)
    ensures
        ({
            let text = span_text(start, end);
            let last = ":"@ + decimal(end.column as nat);
            &&& last.len() <= text.len()
            &&& text.skip(text.len() as int - last.len() as int) == last
        }),
{
    reveal_strlit(":");
    reveal_strlit("..");
    let last = ":"@ + decimal(end.column as nat);
    let text = span_text(start, end);
    let front = decimal(start.line as nat) + ":"@ + decimal(start.column as nat + 1) + ".."@
        + decimal(end.line as nat);
    assert(text =~= front + last);
    assert(text.skip(text.len() as int - last.len() as int) =~= last);
}

/// The start and end locations of a span, rendered by `to_string`.
#[derive(Clone, Copy, Debug, PartialEq, Eq, Structural)]
pub struct SpanDisplay {
    pub start: LineColumn,
    pub end: LineColumn,
}

impl SpanDisplay {
    /// The display of a span from `start` to `end` (as `Span::start` and
    /// `Span::end` give them).
    pub fn new(start: LineColumn, end: LineColumn) -> (d: SpanDisplay)
        ensures
            d.start == start,
            d.end == end,
    {
        SpanDisplay { start, end }
    }

    /// The text that `Display` gives: `start_line:start_col..end_line:end_col`
    /// (see `span_text`).
    pub fn to_string(&self) -> (s: String)
        ensures
            s@ == span_text(self.start, self.end),
    {
        let mut s = String::new();
        push_decimal(&mut s, self.start.line as u128);
        s.append(":");
        push_decimal(&mut s, self.start.column as u128 + 1);
        s.append("..");
        push_decimal(&mut s, self.end.line as u128);
        s.append(":");
        push_decimal(&mut s, self.end.column as u128);
        assert(s@ =~= span_text(self.start, self.end));
        s
    }
}

} // verus!
