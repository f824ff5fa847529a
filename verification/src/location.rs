//! Line/column locations and their conversion to byte and `char` offsets
//! into a source text.
//!
//! A source is cut into lines the way `str::split_inclusive('\n')` cuts it:
//! every line keeps its terminating newline, and a source that ends with a
//! newline has no empty line after it.
use vstd::prelude::*;
use vstd::std_specs::iter::IteratorSpec;
use vstd::string::StrSliceExecFns;

use crate::text::{char_utf8_width, lemma_utf8_len_take_le, lemma_utf8_len_take_next, utf8_len};

verus! {

/// A location in a source text: a 1-indexed line and a 0-indexed column
/// counted in `char`s.
#[derive(Clone, Copy, Debug, PartialEq, Eq, Structural)]
pub struct LineColumn {
    pub line: usize,
    pub column: usize,
}

/// Index of the line that `loc` names, counted from 0; line 0 is treated
/// like line 1.
pub open spec fn line_index(loc: LineColumn) -> nat {
    if loc.line == 0 {
        0
    } else {
        (loc.line - 1) as nat
    }
}

/// The `char` index just past the line that contains position `p`: past its
/// newline, or the end of the text when no newline follows.
pub open spec fn line_end(s: Seq<char>, p: nat) -> nat
    decreases s.len() - p,
{
    if p >= s.len() {
        s.len()
    } else if s[p as int] == '\n' {
        p + 1
    } else {
        line_end(s, p + 1)
    }
}

/// The `char` index at which line `k` (counted from 0) begins; the end of the
/// text for a line past the last one.
pub open spec fn line_start(s: Seq<char>, k: nat) -> nat
    decreases k,
{
    if k == 0 {
        0
    } else {
        line_end(s, line_start(s, (k - 1) as nat))
    }
}

/// The `char` index that `loc` designates: the start of its line plus its
/// column, where a column past the end of the line (newline included) stands
/// for the end of the line.
pub open spec fn char_position(s: Seq<char>, loc: LineColumn) -> nat {
    let p = line_start(s, line_index(loc));
    let e = line_end(s, p);
    if loc.column <= e - p {
        p + loc.column as nat
    } else {
        e
    }
}

/// The byte offset of `loc` in the UTF-8 encoding of `s`.
pub open spec fn byte_offset_of(s: Seq<char>, loc: LineColumn) -> nat {
    utf8_len(s.take(char_position(s, loc) as int))
}

/// The `char` offset of `loc`: the start of its line plus the column, taken
/// as it is, even past the end of the line.
pub open spec fn char_offset_of(s: Seq<char>, loc: LineColumn) -> nat {
    line_start(s, line_index(loc)) + loc.column as nat
}

pub proof fn lemma_line_end_bounds(s: Seq<char>, p: nat)
    requires
        p <= s.len(),
    ensures
        p <= line_end(s, p) <= s.len(),
        p < s.len() ==> p < line_end(s, p),
    decreases s.len() - p,
{
    if p < s.len() && s[p as int] != '\n' {
        lemma_line_end_bounds(s, p + 1);
    }
}

/// Inside a line, every position has the same line end.
pub proof fn lemma_line_end_step(s: Seq<char>, p: nat)
    requires
        p < s.len(),
        s[p as int] != '\n',
    ensures
        line_end(s, p) == line_end(s, p + 1),
{
}

pub proof fn lemma_line_start_bounds(s: Seq<char>, k: nat)
    ensures
        line_start(s, k) <= s.len(),
    decreases k,
{
    if k > 0 {
        lemma_line_start_bounds(s, (k - 1) as nat);
        lemma_line_end_bounds(s, line_start(s, (k - 1) as nat));
    }
}

/// Line starts never decrease.
pub proof fn lemma_line_start_monotone(s: Seq<char>, k: nat, m: nat)
    requires
        k <= m,
    ensures
        line_start(s, k) <= line_start(s, m),
    decreases m - k,
{
    if k < m {
        lemma_line_start_monotone(s, k, (m - 1) as nat);
        lemma_line_start_bounds(s, (m - 1) as nat);
        lemma_line_end_bounds(s, line_start(s, (m - 1) as nat));
    }
}

/// Once the line starts reach the end of the text, they stay there.
pub proof fn lemma_line_start_saturates(s: Seq<char>, k: nat, m: nat)
    requires
        k <= m,
        line_start(s, k) == s.len(),
    ensures
        line_start(s, m) == s.len(),
    decreases m - k,
{
    if k < m {
        lemma_line_start_saturates(s, k, (m - 1) as nat);
    }
}

/// The position that `loc` designates lies in the text.
pub proof fn lemma_char_position_bounds(s: Seq<char>, loc: LineColumn)
    ensures
        line_start(s, line_index(loc)) <= char_position(s, loc) <= s.len(),
{
    lemma_line_start_bounds(s, line_index(loc));
    lemma_line_end_bounds(s, line_start(s, line_index(loc)));
}

/// The order of locations within a text: by line (line 0 counting as line
/// 1), then by column.
pub open spec fn location_le(a: LineColumn, b: LineColumn) -> bool {
    line_index(a) < line_index(b) || (line_index(a) == line_index(b) && a.column <= b.column)
}

/// Later locations designate later positions, so the part of a text between
/// the start and the end of a span is always there when the start does not
/// come after the end.
pub proof fn law_position_monotone(s: Seq<char>, a: LineColumn, b: LineColumn)
    requires
        location_le(a, b),
    ensures
        char_position(s, a) <= char_position(s, b),
        byte_offset_of(s, a) <= byte_offset_of(s, b),
{
    let ka = line_index(a);
    let kb = line_index(b);
    lemma_char_position_bounds(s, a);
    lemma_char_position_bounds(s, b);
    lemma_line_start_bounds(s, ka);
    lemma_line_end_bounds(s, line_start(s, ka));
    if ka < kb {
        lemma_line_start_monotone(s, ka + 1, kb);
        assert(line_start(s, ka + 1) == line_end(s, line_start(s, ka)));
    }
    lemma_byte_offset_order(s, a, b);
}

/// In ASCII text a byte is a `char`: the byte offset of a location is its
/// `char` position, and when the column lies within its line (newline
/// included) both equal its `char` offset.
pub proof fn law_ascii_offsets_agree(s: Seq<char>, loc: LineColumn)
    requires
        vstd::utf8::is_ascii_chars(s),
    ensures
        byte_offset_of(s, loc) == char_position(s, loc),
        loc.column <= line_end(s, line_start(s, line_index(loc))) - line_start(s, line_index(loc))
            ==> char_offset_of(s, loc) == byte_offset_of(s, loc),
{
    lemma_char_position_bounds(s, loc);
    let p = char_position(s, loc) as int;
    let prefix = s.take(p);
    assert(vstd::utf8::is_ascii_chars(prefix)) by {
        assert forall|i: int| 0 <= i < prefix.len() implies '\0' <= #[trigger] prefix[i] <= '\u{7f}' by {
            assert(prefix[i] == s[i]);
        }
    }
    vstd::utf8::is_ascii_chars_encode_utf8(prefix);
}

/// Walks `it` forward from the start of the text to the start of line `k`,
/// counting the `char`s and the bytes that it passes.
fn skip_lines(it: &mut std::str::Chars<'_>, full: Ghost<Seq<char>>, total: usize, k: usize) -> (r: (usize, usize))
    requires
        total == full@.len(),
        (*old(it)).remaining() == full@,
        utf8_len(full@) <= usize::MAX,
    ensures
        r.0 == line_start(full@, k as nat),
        r.1 == utf8_len(full@.take(r.0 as int)),
        (*final(it)).remaining() == full@.skip(r.0 as int),
{
    let ghost s = full@;
    let mut i: usize = 0;
    let mut bytes: usize = 0;
    let mut newlines: usize = 0;
    proof {
        broadcast use vstd::string::group_string_axioms;
        assert(s.skip(0) =~= s);
        assert(s.take(0) =~= Seq::<char>::empty());
        assert(vstd::utf8::encode_utf8(Seq::<char>::empty()) =~= Seq::<u8>::empty());
        assert(line_start(s, 1) == line_end(s, line_start(s, 0)));
    }
    while newlines < k && i < total
        invariant
            total == s.len(),
            i <= total,
            newlines <= k,
            utf8_len(s) <= usize::MAX,
            (*it).remaining() == s.skip(i as int),
            bytes == utf8_len(s.take(i as int)),
            line_start(s, newlines as nat) <= i,
            line_end(s, i as nat) == line_start(s, (newlines + 1) as nat),
            newlines == k ==> i == line_start(s, k as nat),
        decreases total - i,
    {
        proof {
            broadcast use vstd::string::group_string_axioms;
        }
        let next = it.next();
        assert(s.skip(i as int)[0] == s[i as int]);
        let c = match next {
            Some(c) => c,
            None => ' ',
        };
        assert(c == s[i as int]);
        proof {
            lemma_utf8_len_take_next(s, i as int);
            lemma_utf8_len_take_le(s, i + 1);
            assert(s.skip(i as int).drop_first() =~= s.skip(i + 1));
        }
        bytes = bytes + char_utf8_width(c);
        if c == '\n' {
            proof {
                lemma_line_end_bounds(s, (i + 1) as nat);
            }
            newlines = newlines + 1;
        } else {
            proof {
                lemma_line_end_step(s, i as nat);
            }
        }
        i = i + 1;
    }
    proof {
        if newlines < k {
            // the text ended before line `k`
            lemma_line_start_bounds(s, newlines as nat);
            assert(line_start(s, (newlines + 1) as nat) == s.len());
            lemma_line_start_saturates(s, (newlines + 1) as nat, k as nat);
        }
    }
    (i, bytes)
}

/// The `char` position and the byte offset in `source` of `loc`.
fn locate(source: &str, loc: LineColumn) -> (r: (usize, usize))
    ensures
        r.0 == char_position(source@, loc),
        r.1 == byte_offset_of(source@, loc),
{
    let ghost s = source@;
    let total = source.unicode_len();
    let byte_len = source.as_bytes().len();
    proof {
        broadcast use vstd::slice::group_slice_axioms;
        broadcast use vstd::string::group_string_axioms;
        assert(byte_len == utf8_len(s));
    }
    let mut it = source.chars();
    let k = loc.line.saturating_sub(1);
    let (start, start_bytes) = skip_lines(&mut it, Ghost(s), total, k);
    let ghost p = start as nat;
    let ghost e = line_end(s, p);
    proof {
        lemma_line_start_bounds(s, k as nat);
        lemma_line_end_bounds(s, p);
    }
    let mut i = start;
    let mut bytes = start_bytes;
    let mut col: usize = 0;
    while col < loc.column && i < total
        invariant_except_break
            i < total ==> i < e,
        invariant
            i < e ==> line_end(s, i as nat) == e,
            total == s.len(),
            p <= e <= total,
            i == p + col,
            i <= e,
            col <= loc.column,
            utf8_len(s) <= usize::MAX,
            it.remaining() == s.skip(i as int),
            bytes == utf8_len(s.take(i as int)),
        ensures
            i == p + col,
            col == loc.column || i == e,
            col <= loc.column,
            bytes == utf8_len(s.take(i as int)),
        decreases total - i,
    {
        proof {
            broadcast use vstd::string::group_string_axioms;
        }
        let next = it.next();
        assert(s.skip(i as int)[0] == s[i as int]);
        let c = match next {
            Some(c) => c,
            None => ' ',
        };
        assert(c == s[i as int]);
        proof {
            lemma_utf8_len_take_next(s, i as int);
            lemma_utf8_len_take_le(s, i + 1);
            assert(s.skip(i as int).drop_first() =~= s.skip(i + 1));
        }
        bytes = bytes + char_utf8_width(c);
        i = i + 1;
        col = col + 1;
        if c == '\n' {
            assert(line_end(s, (i - 1) as nat) == i);
            break;
        }
        proof {
            lemma_line_end_step(s, (i - 1) as nat);
            lemma_line_end_bounds(s, i as nat);
        }
    }
    (i, bytes)
}

/// The byte offset in `source` of the location `loc`, found by walking the
/// lines of `source`; a line or column past the end is clamped to the end of
/// the text or of the line.
pub fn byte_offset(source: &str, loc: LineColumn) -> (r: usize)
    ensures
        r == byte_offset_of(source@, loc),
{
    let (_, bytes) = locate(source, loc);
    bytes
}

/// The `char` offset in `source` of the location `loc`: the number of `char`s
/// in the lines before it, plus its column.
pub fn char_offset(source: &str, loc: LineColumn) -> (r: usize)
    requires
        char_offset_of(source@, loc) <= usize::MAX,
    ensures
        r == char_offset_of(source@, loc),
{
    let ghost s = source@;
    let total = source.unicode_len();
    let byte_len = source.as_bytes().len();
    proof {
        broadcast use vstd::slice::group_slice_axioms;
        broadcast use vstd::string::group_string_axioms;
        assert(byte_len == utf8_len(s));
    }
    let mut it = source.chars();
    let k = loc.line.saturating_sub(1);
    let (start, _) = skip_lines(&mut it, Ghost(s), total, k);
    start + loc.column
}

/// The `char` offset of `loc` in `source` (see `char_offset`), or `None` when
/// it does not fit in a `usize`.
pub fn checked_char_offset(source: &str, loc: LineColumn) -> (r: Option<usize>)
    ensures
        r is Some <==> char_offset_of(source@, loc) <= usize::MAX,
        r matches Some(offset) ==> offset == char_offset_of(source@, loc),
{
    let ghost s = source@;
    let total = source.unicode_len();
    let byte_len = source.as_bytes().len();
    proof {
        broadcast use vstd::slice::group_slice_axioms;
        broadcast use vstd::string::group_string_axioms;
        assert(byte_len == utf8_len(s));
    }
    let mut it = source.chars();
    let k = loc.line.saturating_sub(1);
    let (start, _) = skip_lines(&mut it, Ghost(s), total, k);
    start.checked_add(loc.column)
}

/// A prefix with more `char`s takes more bytes.
pub proof fn lemma_utf8_len_take_strict(s: Seq<char>, i: int, j: int)
    requires
        0 <= i < j <= s.len(),
    ensures
        utf8_len(s.take(i)) < utf8_len(s.take(j)),
    decreases j - i,
{
    lemma_utf8_len_take_next(s, j - 1);
    vstd::utf8::char_is_scalar(s[j - 1]);
    if i < j - 1 {
        lemma_utf8_len_take_strict(s, i, j - 1);
    }
}

/// Byte offsets are ordered as the positions that they stand for.
pub proof fn lemma_byte_offset_order(s: Seq<char>, a: LineColumn, b: LineColumn)
    ensures
        byte_offset_of(s, a) <= byte_offset_of(s, b) <==> char_position(s, a) <= char_position(
            s,
            b,
        ),
{
    lemma_char_position_bounds(s, a);
    lemma_char_position_bounds(s, b);
    let i = char_position(s, a) as int;
    let j = char_position(s, b) as int;
    if i < j {
        lemma_utf8_len_take_strict(s, i, j);
    } else if j < i {
        lemma_utf8_len_take_strict(s, j, i);
    }
}

/// The part of `source` from `start` to `end` (the text between their byte
/// offsets), or `None` when `end` comes before `start`.
pub fn substring_between<'a>(source: &'a str, start: LineColumn, end: LineColumn) -> (r: Option<
    &'a str,
>)
    ensures
        r is Some <==> byte_offset_of(source@, start) <= byte_offset_of(source@, end),
        r is Some <==> char_position(source@, start) <= char_position(source@, end),
        r matches Some(sub) ==> sub@ == source@.subrange(
            char_position(source@, start) as int,
            char_position(source@, end) as int,
        ),
{
    proof {
        lemma_byte_offset_order(source@, start, end);
        lemma_char_position_bounds(source@, end);
    }
    let (from, _) = locate(source, start);
    let (to, _) = locate(source, end);
    if from <= to {
        Some(source.substring_char(from, to))
    } else {
        None
    }
}

} // verus!
