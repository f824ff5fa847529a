use parsel::{byte_offset, chain_error, farther, location_is_after, Error, LineColumn, SpanDisplay};
use proc_macro2::{Span, TokenStream, TokenTree};

const HEADER: &str = r#"
    // this comment exists only so that there is a line before the actual tokens
    Content-Type: application/json
    /* another comment, just to confuse the lexer */
"#;

fn display(span: Span) -> String {
    let (start, end) = (span.start(), span.end());
    SpanDisplay::new(
        LineColumn { line: start.line, column: start.column },
        LineColumn { line: end.line, column: end.column },
    )
    .to_string()
}

fn trees(source: &str) -> Vec<TokenTree> {
    let stream: TokenStream = source.parse().unwrap();
    stream.into_iter().collect()
}

#[test]
fn format_span_of_header_parts() {
    let tokens = trees(HEADER);
    // Content - Type : application / json
    assert_eq!(tokens.len(), 7);
    let key = tokens[0].span().join(tokens[2].span()).unwrap();
    assert_eq!(display(key), "3:5..3:16");
    assert_eq!(display(tokens[3].span()), "3:17..3:17");
    let value = tokens[4].span().join(tokens[6].span()).unwrap();
    assert_eq!(display(value), "3:19..3:34");
}

#[test]
fn span_display_from_locations() {
    let display = SpanDisplay::new(
        LineColumn { line: 12, column: 0 },
        LineColumn { line: 140, column: 9 },
    );
    assert_eq!(display.to_string(), "12:1..140:9");
    let wide = SpanDisplay::new(
        LineColumn { line: usize::MAX, column: usize::MAX },
        LineColumn { line: 0, column: 10 },
    );
    assert_eq!(
        wide.to_string(),
        format!("{}:{}..0:10", usize::MAX, usize::MAX as u128 + 1)
    );
}

#[test]
fn chain_error_with_enum() {
    let cause = Error::new(Span::call_site(), String::from("expected identifier"));
    let chained = chain_error(cause, "Expr", "Call", "0");
    assert_eq!(
        chained.to_string(),
        "error parsing Expr::Call::0, caused by:\nexpected identifier"
    );
}

#[test]
fn chain_error_without_enum() {
    let cause = Error::new(Span::call_site(), String::from("unexpected end of input"));
    let chained = chain_error(cause, "", "HttpHeader", "colon");
    assert_eq!(
        chained.message,
        "error parsing HttpHeader::colon, caused by:\nunexpected end of input"
    );
}

#[test]
fn chain_error_keeps_span() {
    let tokens = trees("a\n  bc");
    let cause = Error::new(tokens[1].span(), String::from("oops"));
    let chained = chain_error(cause, "E", "V", "f");
    assert_eq!(display(chained.span), "2:3..2:4");
    let start = chained.span.start();
    assert_eq!(byte_offset("a\n  bc", LineColumn { line: start.line, column: start.column }), 4);
}

#[test]
fn location_order() {
    let a = LineColumn { line: 2, column: 0 };
    let b = LineColumn { line: 1, column: 9 };
    let c = LineColumn { line: 2, column: 3 };
    assert!(location_is_after(a, b));
    assert!(!location_is_after(b, a));
    assert!(location_is_after(c, a));
    assert!(!location_is_after(a, a));
}

#[test]
fn from_syn_keeps_first_message() {
    let tokens = trees("a b");
    let mut error = syn::Error::new(tokens[0].span(), "first");
    error.combine(syn::Error::new(tokens[1].span(), "second"));
    let model = Error::from_syn(&error, tokens[0].span());
    assert_eq!(model.message, "first");
    let chained = chain_error(model, "E", "V", "f");
    assert_eq!(chained.message, "error parsing E::V::f, caused by:\nfirst");
}

#[test]
fn farther_by_locations() {
    let a = LineColumn { line: 3, column: 1 };
    let b = LineColumn { line: 2, column: 7 };
    assert_eq!(farther("acc", a, "new", b), "acc");
    assert_eq!(farther("acc", b, "new", a), "new");
    assert_eq!(farther("acc", a, "new", a), "new");
}
