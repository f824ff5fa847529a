//! A model of `proc_macro2` token trees as plain values, and the conversion
//! of a `proc_macro2::TokenStream` into it.
use proc_macro2::{Delimiter as PmDelimiter, Spacing as PmSpacing, TokenStream, TokenTree as PmTokenTree};
use vstd::prelude::*;

verus! {

/// The delimiter of a group of tokens.
#[derive(Clone, Copy, Debug, PartialEq, Eq, Structural)]
pub enum Delimiter {
    /// `( ... )`
    Parenthesis,
    /// `{ ... }`
    Brace,
    /// `[ ... ]`
    Bracket,
    /// No visible delimiter (`proc_macro2::Delimiter::None`).
    Invisible,
}

/// Whether a punctuation character is followed directly by another one
/// (`Joint`, as `+` in `+=`) or not (`Alone`).
#[derive(Clone, Copy, Debug, PartialEq, Eq, Structural)]
pub enum Spacing {
    Alone,
    Joint,
}

/// A token tree: a group of token trees between delimiters, an identifier, a
/// punctuation character, or a literal. Identifiers and literals are held
/// as the text that `Display` gives for them.
#[derive(Debug)]
pub enum TokenTree {
    Group(Delimiter, Vec<TokenTree>),
    Ident(String),
    Punct(char, Spacing),
    Literal(String),
}

#[verifier::external_type_specification]
#[verifier::external_body]
pub struct ExTokenStream(TokenStream);

/// The token trees that a `proc_macro2::TokenStream` holds, in order, in the
/// library's model.
pub uninterp spec fn token_trees(stream: TokenStream) -> Seq<TokenTree>;

/// Converts a `proc_macro2::TokenStream` into the library's model by walking
/// its token trees (`IntoIterator for TokenStream`) and reading each one
/// through `Group::delimiter`, `Group::stream`, `Punct::as_char`,
/// `Punct::spacing` and the `Display` impls of `Ident` and `Literal`.
/// The contract only states that the result is the content of `stream`
/// under the name `token_trees`.
#[verifier::external_body]
pub(crate) fn stream_trees(stream: TokenStream) -> (trees: Vec<TokenTree>)
    ensures
        trees@ == token_trees(stream),
{
    let mut trees = Vec::new();
    for tree in stream {
        trees.push(match tree {
            PmTokenTree::Group(g) => TokenTree::Group(match g.delimiter() {
                PmDelimiter::Parenthesis => Delimiter::Parenthesis,
                PmDelimiter::Brace => Delimiter::Brace,
                PmDelimiter::Bracket => Delimiter::Bracket,
                PmDelimiter::None => Delimiter::Invisible,
            }, stream_trees(g.stream())),
            PmTokenTree::Ident(i) => TokenTree::Ident(i.to_string()),
            PmTokenTree::Punct(p) => TokenTree::Punct(p.as_char(), if p.spacing() == PmSpacing::Joint { Spacing::Joint } else { Spacing::Alone }),
            PmTokenTree::Literal(l) => TokenTree::Literal(l.to_string()),
        });
    }
    trees
}

} // verus!
