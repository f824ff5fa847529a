use parsel::{try_parse_variant, LineColumn};
use syn::parse::{ParseStream, Parser};
use syn::Ident;

fn error_end(error: &syn::Error) -> LineColumn {
    let end = error.span().end();
    LineColumn { line: end.line, column: end.column }
}

#[test]
fn successful_variant_advances_input() {
    let parser = |input: ParseStream| -> syn::Result<(Ident, Ident)> {
        let first = try_parse_variant(input, None, |s| s.parse::<Ident>(), error_end)?;
        let second: Ident = input.parse()?;
        Ok((first, second))
    };
    let (first, second) = parser.parse_str("foo bar").unwrap();
    assert_eq!(first, "foo");
    assert_eq!(second, "bar");
}

#[test]
fn failed_variant_leaves_input() {
    let parser = |input: ParseStream| -> syn::Result<(String, Ident)> {
        let failed = try_parse_variant(input, None, |s| {
            let _: Ident = s.parse()?;
            let _: syn::token::Comma = s.parse()?;
            Ok(())
        }, error_end);
        let message = failed.err().unwrap().to_string();
        let ident: Ident = input.parse()?;
        let _: Ident = input.parse()?;
        Ok((message, ident))
    };
    let (message, ident) = parser.parse_str("foo bar").unwrap();
    assert_eq!(message, "expected `,`");
    assert_eq!(ident, "foo");
}

#[test]
fn farther_error_is_kept() {
    let parser = |input: ParseStream| -> syn::Result<String> {
        // fails at `bar`, the second token
        let first = try_parse_variant(input, None, |s| {
            let _: Ident = s.parse()?;
            let _: syn::token::Comma = s.parse()?;
            Ok(())
        }, error_end)
        .err()
        .unwrap();
        // fails at `foo`, the first token
        let second = try_parse_variant(input, Some(first), |s| {
            let _: syn::token::Semi = s.parse()?;
            Ok(())
        }, error_end)
        .err()
        .unwrap();
        let _: Ident = input.parse()?;
        let _: Ident = input.parse()?;
        Ok(second.to_string())
    };
    assert_eq!(parser.parse_str("foo bar").unwrap(), "expected `,`");
}

#[test]
fn later_error_replaces_accumulated() {
    let parser = |input: ParseStream| -> syn::Result<String> {
        let first = try_parse_variant(input, None, |s| {
            let _: syn::token::Semi = s.parse()?;
            Ok(())
        }, error_end)
        .err()
        .unwrap();
        let second = try_parse_variant(input, Some(first), |s| {
            let _: Ident = s.parse()?;
            let _: syn::token::Comma = s.parse()?;
            Ok(())
        }, error_end)
        .err()
        .unwrap();
        let _: Ident = input.parse()?;
        let _: Ident = input.parse()?;
        Ok(second.to_string())
    };
    assert_eq!(parser.parse_str("foo bar").unwrap(), "expected `,`");
}

#[test]
fn parser_error_kept_without_accumulated_error() {
    let parser = |input: ParseStream| -> syn::Result<String> {
        let failed = try_parse_variant(input, None, |s| {
            let mut error = syn::Error::new(s.span(), "first line");
            error.combine(syn::Error::new(s.span(), "second"));
            Err::<(), _>(error)
        }, error_end);
        let _: Ident = input.parse()?;
        let error = failed.err().unwrap();
        Ok(error.into_iter().map(|e| e.to_string()).collect::<Vec<_>>().join("|"))
    };
    assert_eq!(parser.parse_str("foo").unwrap(), "first line|second");
}


#[test]
fn tie_goes_to_new_error() {
    let parser = |input: ParseStream| -> syn::Result<String> {
        let same_end = |_: &syn::Error| LineColumn { line: 1, column: 0 };
        let first = try_parse_variant(input, None, |s| Err::<(), _>(s.error("old")), same_end)
            .err()
            .unwrap();
        let second = try_parse_variant(input, Some(first), |s| Err::<(), _>(s.error("new")), same_end)
            .err()
            .unwrap();
        let _: Ident = input.parse()?;
        Ok(second.to_string())
    };
    assert_eq!(parser.parse_str("foo").unwrap(), "new");
}
