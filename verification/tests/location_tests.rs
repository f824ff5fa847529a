use parsel::{byte_offset, char_offset, checked_char_offset, substring_between, LineColumn};
use proc_macro2::{Span, TokenStream, TokenTree};

const LITERALS: &str = "\n   -3.667\n  1248  \"string ű literal\"\n      \"wíőzs\"\n";

fn lc(line: usize, column: usize) -> LineColumn {
    LineColumn { line, column }
}

fn start(span: Span) -> LineColumn {
    let location = span.start();
    lc(location.line, location.column)
}

fn end(span: Span) -> LineColumn {
    let location = span.end();
    lc(location.line, location.column)
}

fn byte_range(span: Span, source: &str) -> std::ops::Range<usize> {
    byte_offset(source, start(span))..byte_offset(source, end(span))
}

fn char_range(span: Span, source: &str) -> std::ops::Range<usize> {
    char_offset(source, start(span))..char_offset(source, end(span))
}

fn trees(source: &str) -> Vec<TokenTree> {
    let stream: TokenStream = source.parse().unwrap();
    stream.into_iter().collect()
}

#[test]
fn byte_range_of_literals() {
    let tokens = trees(LITERALS);
    // `-` and `3.667` together make the first literal
    assert_eq!(tokens.len(), 5);
    assert_eq!(byte_range(tokens[0].span(), LITERALS).start, 4);
    assert_eq!(byte_range(tokens[1].span(), LITERALS).end, 10);
    assert_eq!(byte_range(tokens[2].span(), LITERALS), 13..17);
    assert_eq!(byte_range(tokens[3].span(), LITERALS), 19..38);
    assert_eq!(byte_range(tokens[4].span(), LITERALS), 45..54);
}

#[test]
fn char_range_of_literals() {
    let tokens = trees(LITERALS);
    assert_eq!(char_range(tokens[0].span(), LITERALS).start, 4);
    assert_eq!(char_range(tokens[1].span(), LITERALS).end, 10);
    assert_eq!(char_range(tokens[2].span(), LITERALS), 13..17);
    assert_eq!(char_range(tokens[3].span(), LITERALS), 19..37);
    assert_eq!(char_range(tokens[4].span(), LITERALS), 44..51);
}

#[test]
fn source_substring_of_literals() {
    let tokens = trees(LITERALS);
    assert_eq!(substring_between(LITERALS, start(tokens[2].span()), end(tokens[2].span())), Some("1248"));
    assert_eq!(substring_between(LITERALS, start(tokens[3].span()), end(tokens[3].span())), Some("\"string ű literal\""));
    assert_eq!(substring_between(LITERALS, start(tokens[4].span()), end(tokens[4].span())), Some("\"wíőzs\""));
}

#[test]
fn byte_offset_counts_utf8_bytes() {
    assert_eq!(byte_offset(LITERALS, lc(4, 6)), 45);
    assert_eq!(byte_offset(LITERALS, lc(4, 13)), 54);
    assert_eq!(byte_offset("aé\nb", lc(1, 2)), 3);
    assert_eq!(byte_offset("aé\nb", lc(2, 1)), 5);
}

#[test]
fn byte_offset_line_zero_is_line_one() {
    assert_eq!(byte_offset("abc\ndef", lc(0, 2)), 2);
    assert_eq!(byte_offset("abc\ndef", lc(1, 2)), 2);
}

#[test]
fn byte_offset_clamps_column_to_line() {
    // the newline belongs to the line, so column 3 is the newline itself
    assert_eq!(byte_offset("abc\ndef", lc(1, 3)), 3);
    assert_eq!(byte_offset("abc\ndef", lc(1, 4)), 4);
    assert_eq!(byte_offset("abc\ndef", lc(1, 100)), 4);
    assert_eq!(byte_offset("abc\ndef", lc(2, 100)), 7);
}

#[test]
fn byte_offset_past_last_line_is_end() {
    assert_eq!(byte_offset("abc\ndef", lc(3, 0)), 7);
    assert_eq!(byte_offset("abc\ndef", lc(9, 5)), 7);
    assert_eq!(byte_offset("abc\n", lc(2, 5)), 4);
    assert_eq!(byte_offset("", lc(1, 0)), 0);
    assert_eq!(byte_offset("", lc(4, 3)), 0);
}

#[test]
fn char_offset_keeps_column() {
    assert_eq!(char_offset("aé\nb", lc(2, 1)), 4);
    // unlike byte offsets, the column is not clamped
    assert_eq!(char_offset("abc\ndef", lc(1, 100)), 100);
    assert_eq!(char_offset("abc\ndef", lc(9, 1)), 8);
    assert_eq!(char_offset("", lc(0, 0)), 0);
}

#[test]
fn checked_char_offset_reports_overflow() {
    assert_eq!(checked_char_offset("abc\ndef", lc(2, 1)), Some(5));
    assert_eq!(checked_char_offset("abc\ndef", lc(2, usize::MAX)), None);
    assert_eq!(checked_char_offset("abc\ndef", lc(1, usize::MAX)), Some(usize::MAX));
}

#[test]
fn substring_between_locations() {
    let source = "fn main() {\n    println!(\"ű\");\n}\n";
    assert_eq!(substring_between(source, lc(2, 4), lc(2, 12)), Some("println!"));
    assert_eq!(substring_between(source, lc(2, 13), lc(2, 16)), Some("\"ű\""));
    assert_eq!(substring_between(source, lc(1, 0), lc(3, 1)), Some(&source[..source.len() - 1]));
    assert_eq!(substring_between(source, lc(2, 5), lc(2, 5)), Some(""));
    assert_eq!(substring_between(source, lc(2, 5), lc(1, 5)), None);
}

#[test]
fn ascii_byte_and_char_offsets_agree() {
    let source = "let x = 1;\nlet y = x + 2;\n";
    for line in 0..4 {
        for column in 0..12 {
            let loc = lc(line, column);
            let bytes = byte_offset(source, loc);
            assert_eq!(substring_between(source, lc(1, 0), loc).unwrap().len(), bytes);
            if line >= 1 && line <= 2 && column <= 11 && !(line == 1 && column > 11) {
                if column <= source.split_inclusive('\n').nth(line - 1).unwrap().len() {
                    assert_eq!(char_offset(source, loc), bytes);
                }
            }
        }
    }
}

#[test]
fn later_locations_have_larger_offsets() {
    let source = "ab\ncdé\n\nf";
    let mut previous = 0;
    for line in 1..6 {
        for column in 0..5 {
            let offset = byte_offset(source, lc(line, column));
            assert!(offset >= previous);
            previous = offset;
        }
    }
}
