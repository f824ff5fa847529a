use parsel::{
    format_tokens, format_tokens_compact, format_tokens_pretty, Delimiter, Spacing, TokenStreamFormatter,
    TokenTree,
};
use proc_macro2::TokenStream;

const PRETTY_INPUT: &str = r#"
    [
        [
            7.43 * {
                zzz (
                    3333 + "52" - 'a / [
                        foo bar || &baz;
                    ]
                ) != 5;
                ww;
                { }
                () +
                [
                    // this is just a comment so the brackets are actually empty
                ]
                6 <<= 78 >>= 951,
                $ foo $bar # ! [attribute]
            },
            x, y
        ]
    ]
"#;

const PRETTY_OUTPUT: &str = r#"
[
    [
        7.43 * {
            zzz (
                3333 + "52" - 'a / [
                    foo bar || & baz ;
                ]
            )
            != 5 ;
            ww ;
            {}
            ()
            + []
            6 <<= 78 >>= 951 ,
            $ foo $ bar # ! [
                attribute
            ]
        }
        ,
        x ,
        y
    ]
]
"#;

const COMPACT_INPUT: &str = r#"
    [
        (
            7.43 * {
                zzz (
                    3333 + "52" - 'a / [
                        foo || &baz;
                    ]
                ) != 5;
                ww;
                { }
                () +
                [
                    // this is just a comment so the brackets are actually empty
                ]
            },
            x,
            y
        )
    ]
"#;

fn stream(source: &str) -> TokenStream {
    source.parse().unwrap()
}

fn without_white_space(s: &str) -> String {
    s.chars().filter(|c| !c.is_whitespace()).collect()
}

#[test]
fn pretty_prints_nested_groups() {
    let mut formatter = TokenStreamFormatter::pretty(String::new());
    formatter.write(stream(PRETTY_INPUT)).unwrap();
    assert_eq!(formatter.output().as_str(), PRETTY_OUTPUT.trim());
}

#[test]
fn compact_prints_on_one_line() {
    let mut formatter = TokenStreamFormatter::compact(String::new());
    formatter.write(stream(COMPACT_INPUT)).unwrap();
    assert_eq!(
        formatter.into_output(),
        r#"[(7.43 * {zzz (3333 + "52" - 'a / [foo || & baz ;]) != 5 ; ww ; {} () + []} , x , y)]"#
    );
}

#[test]
fn format_tokens_pretty_appends() {
    let mut out = String::from(">> ");
    format_tokens_pretty(stream("f(x, y)"), &mut out).unwrap();
    assert_eq!(out, ">> f (\n    x ,\n    y\n)");
}

#[test]
fn format_tokens_compact_appends() {
    let mut out = String::new();
    format_tokens_compact(stream("f(x, y); g"), &mut out).unwrap();
    assert_eq!(out, "f (x , y) ; g");
}

#[test]
fn format_tokens_follows_alternate_flag() {
    let mut compact = String::new();
    format_tokens(stream("{ a; b }"), true, &mut compact).unwrap();
    assert_eq!(compact, "{a ; b}");
    let mut pretty = String::new();
    format_tokens(stream("{ a; b }"), false, &mut pretty).unwrap();
    assert_eq!(pretty, "{\n    a ;\n    b\n}");
}

#[test]
fn format_ast_node_of_syntax_tree() {
    let expr: syn::Expr = syn::parse_str("foo(1, [2])").unwrap();
    let mut compact = String::new();
    parsel::format_ast_node_compact(&expr, &mut compact).unwrap();
    assert_eq!(compact, "foo (1 , [2])");
    let mut pretty = String::new();
    parsel::format_ast_node(&expr, false, &mut pretty).unwrap();
    assert_eq!(pretty, "foo (\n    1 ,\n    [\n        2\n    ]\n)");
    let mut also_pretty = String::new();
    parsel::format_ast_node_pretty(&expr, &mut also_pretty).unwrap();
    assert_eq!(also_pretty, pretty);
}

#[test]
fn empty_groups_are_written_without_layout() {
    let mut out = String::new();
    format_tokens_pretty(stream("a () [] {} b"), &mut out).unwrap();
    assert_eq!(out, "a ()\n[]\n{}\nb");
}

#[test]
fn with_indent_accepts_white_space_only() {
    assert!(TokenStreamFormatter::with_indent(String::from("  \t"), String::new()).is_ok());
    let err = TokenStreamFormatter::with_indent(String::from("  not ws "), String::new()).err().unwrap();
    assert_eq!(err.to_string(), "indentation contains non-whitespace characters");
    assert!(TokenStreamFormatter::with_indent(String::new(), String::new()).is_ok());
    assert!(TokenStreamFormatter::with_indent(String::from("\u{3000}\u{2028}"), String::new()).is_ok());
    assert!(TokenStreamFormatter::with_indent(String::from("\u{200B}"), String::new()).is_err());
}

#[test]
fn with_indent_uses_its_indentation() {
    let mut formatter = TokenStreamFormatter::with_indent(String::from("\t"), String::from("// ")).unwrap();
    formatter.write(stream("[a, [b]]")).unwrap();
    assert_eq!(formatter.into_output(), "// [\n\ta ,\n\t[\n\t\tb\n\t]\n]");
}

#[test]
fn write_keeps_appending() {
    let mut formatter = TokenStreamFormatter::compact(String::new());
    formatter.write(stream("a")).unwrap();
    formatter.write(stream("(b)")).unwrap();
    assert_eq!(formatter.output().as_str(), "a(b)");
}

#[test]
fn write_trees_on_built_model() {
    let trees = vec![
        TokenTree::Ident(String::from("let")),
        TokenTree::Ident(String::from("v")),
        TokenTree::Punct('=', Spacing::Alone),
        TokenTree::Group(
            Delimiter::Bracket,
            vec![
                TokenTree::Literal(String::from("1")),
                TokenTree::Punct(',', Spacing::Alone),
                TokenTree::Literal(String::from("2")),
            ],
        ),
        TokenTree::Punct(';', Spacing::Alone),
    ];
    let mut pretty = TokenStreamFormatter::pretty(String::new());
    pretty.write_trees(&trees);
    assert_eq!(pretty.output().as_str(), "let v = [\n    1 ,\n    2\n]\n;");
    let mut compact = TokenStreamFormatter::compact(String::new());
    compact.write_trees(&trees);
    assert_eq!(compact.output().as_str(), "let v = [1 , 2] ;");
}

#[test]
fn invisible_groups_are_written_in_place() {
    let trees = vec![
        TokenTree::Ident(String::from("a")),
        TokenTree::Group(
            Delimiter::Invisible,
            vec![TokenTree::Ident(String::from("b")), TokenTree::Ident(String::from("c"))],
        ),
        TokenTree::Ident(String::from("d")),
    ];
    let mut compact = TokenStreamFormatter::compact(String::new());
    compact.write_trees(&trees);
    assert_eq!(compact.output().as_str(), "a b c d");
    let nested = vec![TokenTree::Group(Delimiter::Brace, trees)];
    let mut pretty = TokenStreamFormatter::pretty(String::new());
    pretty.write_trees(&nested);
    assert_eq!(pretty.output().as_str(), "{\n    a     b c d\n}");
}

#[test]
fn joint_punctuation_is_not_separated() {
    let mut out = String::new();
    format_tokens_compact(stream("a += b :: c"), &mut out).unwrap();
    assert_eq!(out, "a += b :: c");
}

#[test]
fn pretty_and_compact_differ_only_in_white_space() {
    let mut pretty = String::new();
    format_tokens_pretty(stream(PRETTY_INPUT), &mut pretty).unwrap();
    let mut compact = String::new();
    format_tokens_compact(stream(PRETTY_INPUT), &mut compact).unwrap();
    assert_eq!(without_white_space(&pretty), without_white_space(&compact));
    assert_eq!(without_white_space(&pretty), without_white_space(PRETTY_INPUT).replace("//thisisjustacommentsothebracketsareactuallyempty", ""));
}

#[test]
fn compact_output_has_no_line_breaks() {
    let mut compact = String::new();
    format_tokens_compact(stream(PRETTY_INPUT), &mut compact).unwrap();
    assert!(!compact.contains('\n'));
}

#[test]
fn nesting_budget_is_checked() {
    let inner = vec![TokenTree::Group(Delimiter::Parenthesis, vec![TokenTree::Ident(String::from("x"))])];
    let trees = vec![TokenTree::Group(Delimiter::Brace, inner)];
    assert!(!parsel::formatter::nesting_fits(&trees, 1));
    assert!(parsel::formatter::nesting_fits(&trees, 2));
    let empty = vec![TokenTree::Group(Delimiter::Brace, vec![])];
    assert!(parsel::formatter::nesting_fits(&empty, 0));
}

#[test]
fn tokens_keep_their_text_between_layout() {
    let mut pretty = String::new();
    format_tokens_pretty(stream(r#"call("a  b", [x; 2])"#), &mut pretty).unwrap();
    assert_eq!(pretty, "call (\n    \"a  b\" ,\n    [\n        x ;\n        2\n    ]\n)");
    let mut compact = String::new();
    format_tokens_compact(stream(r#"call("a  b", [x; 2])"#), &mut compact).unwrap();
    assert_eq!(compact, "call (\"a  b\" , [x ; 2])");
}
