//! Grammar-agnostic formatting of token streams: groups are broken over
//! several lines and indented, so that nested structures do not end up on one
//! long line.
use proc_macro2::TokenStream;
use quote::ToTokens;
use vstd::prelude::*;
use vstd::string::StringExecFns;

use crate::error::Error;
use crate::spans::call_site;
use crate::text::{all_white_space, is_white_space, push_char, str_is_white_space};
use crate::tokens::{stream_trees, token_trees, Delimiter, Spacing, TokenTree};

verus! {

/// The indentation for nesting level `level`: the indentation string
/// repeated `level` times, or nothing when there is no indentation.
pub open spec fn indent_text(indent: Option<Seq<char>>, level: nat) -> Seq<char>
    decreases level,
{
    match indent {
        Some(unit) => if level == 0 {
            Seq::empty()
        } else {
            indent_text(indent, (level - 1) as nat) + unit
        },
        None => Seq::empty(),
    }
}

/// The indentation for level `level` is `level` whole copies of the
/// indentation string, one after the other: its length is `level` times
/// that of the string, and its `k`-th character is the string's character
/// at `k` modulo the string's length. Without indentation it is empty.
pub proof fn law_indentation_is_level_copies(indent: Option<Seq<char>>, level: nat)
    ensures
        indent is None ==> indent_text(indent, level).len() == 0,
        indent matches Some(unit) ==> {
            &&& indent_text(indent, level).len() == level * unit.len()
            &&& unit.len() > 0 ==> forall|k: int|
                0 <= k < indent_text(indent, level).len() ==> #[trigger] indent_text(
                    indent,
                    level,
                )[k] == unit[k % (unit.len() as int)]
        },
    decreases level,
{
    if let Some(unit) = indent {
        if level > 0 {
            let prev = indent_text(indent, (level - 1) as nat);
            law_indentation_is_level_copies(indent, (level - 1) as nat);
            let n = unit.len() as int;
            let l = level as int;
            assert(prev.len() + n == l * n) by (nonlinear_arith)
                requires
                    prev.len() == (l - 1) * n,
            ;
            if n > 0 {
                assert forall|k: int| 0 <= k < indent_text(indent, level).len() implies #[trigger] indent_text(
                    indent,
                    level,
                )[k] == unit[k % n] by {
                    if k < prev.len() {
                        assert(indent_text(indent, level)[k] == prev[k]);
                    } else {
                        let j = k - prev.len();
                        assert(indent_text(indent, level)[k] == unit[j]);
                        assert(k % n == j) by (nonlinear_arith)
                            requires
                                k == (l - 1) * n + j,
                                0 <= j < n,
                        ;
                    }
                }
            }
        }
    }
}

/// A line break: a newline when indenting; otherwise a space after a token
/// that stands alone, and nothing after a joint one.
pub open spec fn newline_text(indent: Option<Seq<char>>, spacing: Spacing) -> Seq<char> {
    if indent is Some {
        seq!['\n']
    } else if spacing == Spacing::Alone {
        seq![' ']
    } else {
        Seq::empty()
    }
}

/// The opening character of a visible delimiter.
pub open spec fn open_char(d: Delimiter) -> char {
    match d {
        Delimiter::Parenthesis => '(',
        Delimiter::Brace => '{',
        _ => '[',
    }
}

/// The closing character of a visible delimiter.
pub open spec fn close_char(d: Delimiter) -> char {
    match d {
        Delimiter::Parenthesis => ')',
        Delimiter::Brace => '}',
        _ => ']',
    }
}

/// The text written for the token tree `tree` at nesting level `level`,
/// where `more` tells whether other token trees follow it.
///
/// Identifiers, literals and punctuation are written as they are, and a `,`
/// or `;` that stands alone and is not the last token ends the line. A
/// visible group is written as its opening delimiter, then (unless it is
/// empty) its contents one level deeper between line breaks, then its closing
/// delimiter, and it ends the line unless it is the last token. The contents
/// of an invisible group are written in place, after an indentation.
pub open spec fn tree_text(indent: Option<Seq<char>>, level: nat, tree: TokenTree, more: bool) -> Seq<
    char,
>
    decreases tree,
{
    match tree {
        TokenTree::Ident(text) => text@,
        TokenTree::Literal(text) => text@,
        TokenTree::Punct(c, spacing) => if (c == ',' || c == ';') && spacing == Spacing::Alone
            && more {
            seq![c] + newline_text(indent, Spacing::Alone) + indent_text(indent, level)
        } else {
            seq![c]
        },
        TokenTree::Group(delimiter, inner) => if delimiter == Delimiter::Invisible {
            indent_text(indent, level) + trees_text(indent, level, inner@, Spacing::Joint)
        } else {
            let body = if inner.len() == 0 {
                Seq::empty()
            } else {
                newline_text(indent, Spacing::Joint) + indent_text(indent, level + 1) + trees_text(
                    indent,
                    level + 1,
                    inner@,
                    Spacing::Joint,
                ) + newline_text(indent, Spacing::Joint) + indent_text(indent, level)
            };
            let after = if more {
                newline_text(indent, Spacing::Alone) + indent_text(indent, level)
            } else {
                Seq::empty()
            };
            seq![open_char(delimiter)] + body + seq![close_char(delimiter)] + after
        },
    }
}

/// The spacing that the token after `tree` sees: `Joint` right after a line
/// break, the punctuation's own spacing after punctuation, and `Alone`
/// otherwise.
pub open spec fn spacing_after(tree: TokenTree, more: bool) -> Spacing {
    match tree {
        TokenTree::Punct(c, spacing) => if (c == ',' || c == ';') && spacing == Spacing::Alone
            && more {
            Spacing::Joint
        } else {
            spacing
        },
        TokenTree::Group(delimiter, _) => if delimiter != Delimiter::Invisible && more {
            Spacing::Joint
        } else {
            Spacing::Alone
        },
        _ => Spacing::Alone,
    }
}

/// The text written for the token trees `trees` at nesting level `level`,
/// after a token whose spacing is `spacing`: each tree in turn (see
/// `tree_text`), preceded by one space unless the token before it is joint
/// punctuation or a line break.
pub open spec fn trees_text(
    indent: Option<Seq<char>>,
    level: nat,
    trees: Seq<TokenTree>,
    spacing: Spacing,
) -> Seq<char>
    decreases trees,
{
    if trees.len() == 0 {
        Seq::empty()
    } else {
        let more = trees.len() > 1;
        let separator = if spacing == Spacing::Joint {
            Seq::empty()
        } else {
            seq![' ']
        };
        separator + tree_text(indent, level, trees[0], more) + trees_text(
            indent,
            level,
            trees.drop_first(),
            spacing_after(trees[0], more),
        )
    }
}

/// The text written for a whole token stream at nesting level `level`: the
/// indentation, then the token trees.
pub open spec fn stream_text(indent: Option<Seq<char>>, level: nat, trees: Seq<TokenTree>) -> Seq<
    char,
> {
    indent_text(indent, level) + trees_text(indent, level, trees, Spacing::Joint)
}

/// How many levels of indentation writing `tree` goes down: one per
/// non-empty visible group, nested.
pub open spec fn tree_nesting(tree: TokenTree) -> nat
    decreases tree,
{
    match tree {
        TokenTree::Group(delimiter, inner) => if delimiter == Delimiter::Invisible {
            nesting(inner@)
        } else if inner.len() == 0 {
            0
        } else {
            1 + nesting(inner@)
        },
        _ => 0,
    }
}

/// The largest `tree_nesting` of the token trees `trees`.
pub open spec fn nesting(trees: Seq<TokenTree>) -> nat
    decreases trees,
{
    if trees.len() == 0 {
        0
    } else {
        let first = tree_nesting(trees[0]);
        let others = nesting(trees.drop_first());
        if first >= others {
            first
        } else {
            others
        }
    }
}

/// The nesting of a sequence bounds that of each of its trees.
pub proof fn lemma_nesting_element(trees: Seq<TokenTree>, i: int)
    requires
        0 <= i < trees.len(),
    ensures
        tree_nesting(trees[i]) <= nesting(trees),
    decreases i,
{
    if i > 0 {
        lemma_nesting_element(trees.drop_first(), i - 1);
    }
}

/// The nesting of a sequence is within a bound exactly when that of each of
/// its trees is.
pub proof fn lemma_nesting_bound(trees: Seq<TokenTree>, bound: nat)
    ensures
        nesting(trees) <= bound <==> forall|i: int|
            0 <= i < trees.len() ==> tree_nesting(#[trigger] trees[i]) <= bound,
    decreases trees.len(),
{
    if trees.len() > 0 {
        lemma_nesting_bound(trees.drop_first(), bound);
        assert forall|i: int| 1 <= i < trees.len() implies #[trigger] trees[i]
            == trees.drop_first()[i - 1] by {}
        if nesting(trees) <= bound {
            assert forall|i: int| 0 <= i < trees.len() implies tree_nesting(#[trigger] trees[i])
                <= bound by {
                if i > 0 {
                    assert(trees[i] == trees.drop_first()[i - 1]);
                }
            }
        }
        if forall|i: int| 0 <= i < trees.len() ==> tree_nesting(#[trigger] trees[i]) <= bound {
            assert(tree_nesting(trees[0]) <= bound);
            assert forall|i: int| 0 <= i < trees.drop_first().len() implies tree_nesting(
                #[trigger] trees.drop_first()[i],
            ) <= bound by {
                assert(trees.drop_first()[i] == trees[i + 1]);
            }
        }
    }
}

/// How many visible groups `tree` holds, itself included, at any depth.
pub open spec fn tree_visible_groups(tree: TokenTree) -> nat
    decreases tree,
{
    match tree {
        TokenTree::Group(delimiter, inner) => (if delimiter == Delimiter::Invisible {
            0nat
        } else {
            1nat
        }) + visible_groups(inner@),
        _ => 0,
    }
}

/// How many visible groups the token trees `trees` hold, at any depth.
pub open spec fn visible_groups(trees: Seq<TokenTree>) -> nat
    decreases trees,
{
    if trees.len() == 0 {
        0
    } else {
        tree_visible_groups(trees[0]) + visible_groups(trees.drop_first())
    }
}

/// Only visible groups make formatting go a level deeper: the nesting of a
/// token tree is at most the number of visible groups in it.
pub proof fn law_tree_nesting_at_most_visible_groups(tree: TokenTree)
    ensures
        tree_nesting(tree) <= tree_visible_groups(tree),
    decreases tree,
{
    if let TokenTree::Group(_, inner) = tree {
        law_nesting_at_most_visible_groups(inner@);
    }
}

/// Only visible groups make formatting go a level deeper: the nesting of
/// token trees is at most the number of visible groups in them, so a stream
/// of `k` visible groups, invisible ones aside, is written in full whenever
/// the level plus `k` fits in a `usize`.
pub proof fn law_nesting_at_most_visible_groups(trees: Seq<TokenTree>)
    ensures
        nesting(trees) <= visible_groups(trees),
    decreases trees,
{
    if trees.len() > 0 {
        law_tree_nesting_at_most_visible_groups(trees[0]);
        law_nesting_at_most_visible_groups(trees.drop_first());
    }
}

/// A non-empty visible group among `trees` takes formatting one level
/// deeper than its contents need, and an invisible one no deeper than its
/// contents: the nesting of `trees` is at least one more than that of the
/// contents of the former, and at least that of the contents of the latter.
pub proof fn law_group_nesting(trees: Seq<TokenTree>, i: int)
    requires
        0 <= i < trees.len(),
        trees[i] is Group,
    ensures
        match trees[i] {
            TokenTree::Group(delimiter, inner) => {
                &&& nesting(trees) >= nesting(inner@)
                &&& delimiter != Delimiter::Invisible && inner.len() > 0 ==> nesting(trees) >= 1
                    + nesting(inner@)
            },
            _ => true,
        },
{
    lemma_nesting_element(trees, i);
}

/// Decides whether the token trees `trees` nest at most `budget` levels.
pub fn nesting_fits(trees: &Vec<TokenTree>, budget: usize) -> (r: bool)
    ensures
        r == (nesting(trees@) <= budget),
    decreases trees@, 1nat,
{
    let n = trees.len();
    let mut i: usize = 0;
    while i < n
        invariant
            n == trees@.len(),
            i <= n,
            forall|j: int| 0 <= j < i ==> tree_nesting(#[trigger] trees@[j]) <= budget,
        decreases n - i,
    {
        if !tree_nesting_fits(&trees[i], budget) {
            proof {
                lemma_nesting_bound(trees@, budget as nat);
            }
            return false;
        }
        i = i + 1;
    }
    proof {
        lemma_nesting_bound(trees@, budget as nat);
    }
    true
}

/// Decides whether the token tree `tree` nests at most `budget` levels.
fn tree_nesting_fits(tree: &TokenTree, budget: usize) -> (r: bool)
    ensures
        r == (tree_nesting(*tree) <= budget),
    decreases *tree, 0nat,
{
    match tree {
        TokenTree::Group(delimiter, inner) => {
            if *delimiter == Delimiter::Invisible {
                nesting_fits(inner, budget)
            } else if inner.len() == 0 {
                true
            } else if budget == 0 {
                false
            } else {
                nesting_fits(inner, budget - 1)
            }
        },
        _ => true,
    }
}

/// Formats token streams into a `String`, with or without indentation.
#[derive(Debug)]
pub struct TokenStreamFormatter {
    indent_level: usize,
    indent_string: Option<String>,
    writer: String,
}

/// Reports that a token stream nests deeper than the indentation level can
/// count.
#[derive(Clone, Copy, Debug, PartialEq, Eq, Structural)]
pub struct FormatError;

/// `ToTokens::to_token_stream`. Nothing is stated of the tokens.
#[verifier::external_body]
fn node_tokens<T: ?Sized + ToTokens>(node: &T) -> TokenStream {
    node.to_token_stream()
}

impl TokenStreamFormatter {
    /// The indentation string, if the formatter indents.
    pub closed spec fn indent(&self) -> Option<Seq<char>> {
        match self.indent_string {
            Some(unit) => Some(unit@),
            None => None,
        }
    }

    /// The current nesting level.
    pub closed spec fn level(&self) -> nat {
        self.indent_level as nat
    }

    /// The text written so far.
    pub closed spec fn written(&self) -> Seq<char> {
        self.writer@
    }

    /// A formatter that indents with `indent_string`, appending to `writer`.
    /// Fails when the indentation holds a character that is not white space.
    pub fn with_indent(indent_string: String, writer: String) -> (r: Result<Self, Error>)
        ensures
            r is Ok <==> all_white_space(indent_string@),
            r matches Ok(f) ==> f.indent() == Some(indent_string@) && all_white_space(
                indent_string@,
            ) && f.level() == 0
                && f.written() == writer@,
            r matches Err(e) ==> e.message@
                == "indentation contains non-whitespace characters"@,
    {
        if str_is_white_space(indent_string.as_str()) {
            Ok(TokenStreamFormatter { indent_level: 0, indent_string: Some(indent_string), writer })
        } else {
            Err(
                Error::new(
                    call_site(),
                    String::from_str("indentation contains non-whitespace characters"),
                ),
            )
        }
    }

    /// A formatter that pretty-prints with four spaces of indentation,
    /// appending to `writer`.
    pub fn pretty(writer: String) -> (f: Self)
        ensures
            f.indent() == Some("    "@),
            f.indent() matches Some(unit) && all_white_space(unit),
            f.level() == 0,
            f.written() == writer@,
    {
        proof {
            reveal_strlit("    ");
        }
        TokenStreamFormatter {
            indent_level: 0,
            indent_string: Some(String::from_str("    ")),
            writer,
        }
    }

    /// A formatter that writes without line breaks or indentation, appending
    /// to `writer`.
    pub fn compact(writer: String) -> (f: Self)
        ensures
            f.indent() is None,
            f.level() == 0,
            f.written() == writer@,
    {
        TokenStreamFormatter { indent_level: 0, indent_string: None, writer }
    }

    /// The text written so far.
    pub fn output(&self) -> (s: &String)
        ensures
            s@ == self.written(),
    {
        &self.writer
    }

    /// Gives back the text written so far.
    pub fn into_output(self) -> (s: String)
        ensures
            s@ == self.written(),
    {
        self.writer
    }

    fn write_str(&mut self, text: &str)
        ensures
            final(self).writer@ == old(self).writer@ + text@,
            final(self).indent_level == old(self).indent_level,
            final(self).indent_string == old(self).indent_string,
    {
        self.writer.append(text);
    }

    fn write_char(&mut self, c: char)
        ensures
            final(self).writer@ == old(self).writer@.push(c),
            final(self).indent_level == old(self).indent_level,
            final(self).indent_string == old(self).indent_string,
    {
        push_char(&mut self.writer, c);
    }

    /// Writes the indentation for the current level.
    fn write_indent(&mut self)
        ensures
            final(self).writer@ == old(self).writer@ + indent_text(old(self).indent(), old(self).level()),
            final(self).indent_level == old(self).indent_level,
            final(self).indent_string == old(self).indent_string,
    {
        if let Some(indent_string) = &self.indent_string {
            let unit: &str = indent_string.as_str();
            let level = self.indent_level;
            let mut i: usize = 0;
            assert(self.writer@ =~= old(self).writer@ + indent_text(old(self).indent(), 0));
            while i < level
                invariant
                    i <= level,
                    level == old(self).indent_level,
                    self.indent_level == old(self).indent_level,
                    self.indent_string == old(self).indent_string,
                    old(self).indent() == Some(unit@),
                    self.writer@ == old(self).writer@ + indent_text(old(self).indent(), i as nat),
                decreases level - i,
            {
                self.writer.append(unit);
                i = i + 1;
                assert(self.writer@ =~= old(self).writer@ + indent_text(
                    old(self).indent(),
                    i as nat,
                ));
            }
        } else {
            assert(self.writer@ =~= old(self).writer@ + indent_text(old(self).indent(), old(self).level()));
        }
    }

    /// Writes a line break (see `newline_text`).
    fn write_newline(&mut self, spacing: Spacing)
        ensures
            final(self).writer@ == old(self).writer@ + newline_text(old(self).indent(), spacing),
            final(self).indent_level == old(self).indent_level,
            final(self).indent_string == old(self).indent_string,
    {
        if self.indent_string.is_some() {
            self.write_char('\n');
        } else if spacing == Spacing::Alone {
            self.write_char(' ');
        } else {
            assert(self.writer@ =~= old(self).writer@ + newline_text(old(self).indent(), spacing));
        }
    }

    /// Writes a line break, then the indentation for the current level.
    fn write_newline_and_indent(&mut self, spacing: Spacing)
        ensures
            final(self).writer@ == old(self).writer@ + newline_text(old(self).indent(), spacing)
                + indent_text(old(self).indent(), old(self).level()),
            final(self).indent_level == old(self).indent_level,
            final(self).indent_string == old(self).indent_string,
    {
        self.write_newline(spacing);
        self.write_indent();
        assert(self.writer@ =~= old(self).writer@ + newline_text(old(self).indent(), spacing)
            + indent_text(old(self).indent(), old(self).level()));
    }

    /// Formats `stream` at the current level (see `stream_text`), leaving the
    /// level as it was. Fails, writing nothing, when the stream nests too deep
    /// for the level to be counted in a `usize`.
    pub fn write(&mut self, stream: TokenStream) -> (r: Result<(), FormatError>)
        ensures
            r is Ok <==> old(self).level() + nesting(token_trees(stream)) <= usize::MAX,
            r is Ok ==> final(self).written() == old(self).written() + stream_text(
                old(self).indent(),
                old(self).level(),
                token_trees(stream),
            ),
            r is Err ==> final(self).written() == old(self).written(),
            final(self).indent() == old(self).indent(),
            final(self).level() == old(self).level(),
    {
        let trees = stream_trees(stream);
        if nesting_fits(&trees, usize::MAX - self.indent_level) {
            self.write_trees(&trees);
            Ok(())
        } else {
            Err(FormatError)
        }
    }

    /// Formats the tokens of the syntax tree node `node` (`ToTokens`), as
    /// `write` does.
    pub fn write_ast_node<T: ?Sized + ToTokens>(&mut self, node: &T) -> (r: Result<(), FormatError>)
        ensures
            exists|stream: TokenStream|
                #![trigger token_trees(stream)]
                {
                    &&& r is Ok <==> old(self).level() + nesting(token_trees(stream)) <= usize::MAX
                    &&& r is Ok ==> final(self).written() == old(self).written() + stream_text(
                        old(self).indent(),
                        old(self).level(),
                        token_trees(stream),
                    )
                },
            r is Err ==> final(self).written() == old(self).written(),
            final(self).indent() == old(self).indent(),
            final(self).level() == old(self).level(),
    {
        let stream = node_tokens(node);
        let ghost tokens = stream;
        let r = self.write(stream);
        assert(r is Ok <==> old(self).level() + nesting(token_trees(tokens)) <= usize::MAX);
        r
    }

    /// Writes the token trees `trees` at the current level (see
    /// `stream_text`), leaving the level as it was.
    pub fn write_trees(&mut self, trees: &Vec<TokenTree>)
        requires
            old(self).level() + nesting(trees@) <= usize::MAX,
        ensures
            final(self).written() == old(self).written() + stream_text(
                old(self).indent(),
                old(self).level(),
                trees@,
            ),
            final(self).indent() == old(self).indent(),
            final(self).level() == old(self).level(),
        decreases trees@, 2nat,
    {
        let ghost ind = old(self).indent();
        let ghost level = old(self).level();
        let ghost w0 = old(self).writer@;
        let ghost ts = trees@;
        self.write_indent();
        let mut spacing = Spacing::Joint;
        let n = trees.len();
        let mut i: usize = 0;
        assert(ts.skip(0) =~= ts);
        while i < n
            invariant
                n == ts.len(),
                ts == trees@,
                i <= n,
                self.indent() == ind,
                self.level() == level,
                level + nesting(ts) <= usize::MAX,
                w0 + stream_text(ind, level, ts) == self.writer@ + trees_text(
                    ind,
                    level,
                    ts.skip(i as int),
                    spacing,
                ),
            decreases n - i,
        {
            let ghost before = self.writer@;
            let ghost rest = ts.skip(i as int);
            assert(rest.drop_first() =~= ts.skip(i + 1));
            assert(rest[0] == ts[i as int]);
            if spacing == Spacing::Joint {
                spacing = Spacing::Alone;
            } else {
                self.write_char(' ');
            }
            let more = i < n - 1;
            proof {
                lemma_nesting_element(ts, i as int);
            }
            spacing = self.write_tree(&trees[i], more);
            assert(w0 + stream_text(ind, level, ts) =~= self.writer@ + trees_text(
                ind,
                level,
                ts.skip(i + 1),
                spacing,
            ));
            i = i + 1;
        }
        assert(ts.skip(n as int) =~= Seq::<TokenTree>::empty());
        assert(self.writer@ =~= w0 + stream_text(ind, level, ts));
    }

    /// Writes the token tree `tree` (see `tree_text`) and returns the spacing
    /// that the next token sees.
    fn write_tree(&mut self, tree: &TokenTree, more: bool) -> (next: Spacing)
        requires
            old(self).level() + tree_nesting(*tree) <= usize::MAX,
        ensures
            final(self).writer@ == old(self).writer@ + tree_text(
                old(self).indent(),
                old(self).level(),
                *tree,
                more,
            ),
            next == spacing_after(*tree, more),
            final(self).indent() == old(self).indent(),
            final(self).level() == old(self).level(),
        decreases *tree, 1nat,
    {
        let ghost ind = old(self).indent();
        let ghost level = old(self).level();
        let ghost before = self.writer@;
        match tree {
            TokenTree::Ident(text) => {
                self.write_str(text.as_str());
                Spacing::Alone
            },
            TokenTree::Literal(text) => {
                self.write_str(text.as_str());
                Spacing::Alone
            },
            TokenTree::Punct(c, spacing) => {
                self.write_char(*c);
                if (*c == ',' || *c == ';') && *spacing == Spacing::Alone && more {
                    self.write_newline_and_indent(*spacing);
                    assert(self.writer@ =~= before + tree_text(ind, level, *tree, more));
                    Spacing::Joint
                } else {
                    assert(self.writer@ =~= before + tree_text(ind, level, *tree, more));
                    *spacing
                }
            },
            TokenTree::Group(delimiter, inner) => {
                if *delimiter == Delimiter::Invisible {
                    self.write_trees(inner);
                    Spacing::Alone
                } else {
                    self.write_group(tree, more)
                }
            },
        }
    }

    /// Writes the contents of a non-empty visible group one level deeper,
    /// between line breaks.
    fn write_group_body(&mut self, inner: &Vec<TokenTree>)
        requires
            inner@.len() > 0,
            old(self).level() + 1 + nesting(inner@) <= usize::MAX,
        ensures
            final(self).writer@ == old(self).writer@ + (newline_text(
                old(self).indent(),
                Spacing::Joint,
            ) + indent_text(old(self).indent(), old(self).level() + 1) + trees_text(
                old(self).indent(),
                old(self).level() + 1,
                inner@,
                Spacing::Joint,
            ) + newline_text(old(self).indent(), Spacing::Joint) + indent_text(
                old(self).indent(),
                old(self).level(),
            )),
            final(self).indent() == old(self).indent(),
            final(self).level() == old(self).level(),
        decreases inner@, 3nat,
    {
        let ghost ind = old(self).indent();
        let ghost level = old(self).level();
        let ghost before = self.writer@;
        self.indent_level = self.indent_level + 1;
        self.write_newline(Spacing::Joint);
        let ghost w1 = self.writer@;
        self.write_trees(inner);
        let ghost w2 = self.writer@;
        self.indent_level = self.indent_level - 1;
        self.write_newline_and_indent(Spacing::Joint);
        assert(self.writer@ =~= before + (newline_text(ind, Spacing::Joint) + indent_text(
            ind,
            level + 1,
        ) + trees_text(ind, level + 1, inner@, Spacing::Joint) + newline_text(ind, Spacing::Joint)
            + indent_text(ind, level)));
    }

    /// Writes a token tree that is a visible group (see `tree_text`).
    fn write_group(&mut self, tree: &TokenTree, more: bool) -> (next: Spacing)
        requires
            tree matches TokenTree::Group(delimiter, _) && delimiter != Delimiter::Invisible,
            old(self).level() + tree_nesting(*tree) <= usize::MAX,
        ensures
            final(self).writer@ == old(self).writer@ + tree_text(
                old(self).indent(),
                old(self).level(),
                *tree,
                more,
            ),
            next == spacing_after(*tree, more),
            final(self).indent() == old(self).indent(),
            final(self).level() == old(self).level(),
        decreases *tree, 0nat,
    {
        let ghost ind = old(self).indent();
        let ghost level = old(self).level();
        let ghost before = self.writer@;
        match tree {
            TokenTree::Group(delimiter, inner) => {
                let (open, close) = match delimiter {
                    Delimiter::Parenthesis => ('(', ')'),
                    Delimiter::Brace => ('{', '}'),
                    _ => ('[', ']'),
                };
                assert(open == open_char(*delimiter) && close == close_char(*delimiter));
                let ghost body: Seq<char> = if inner.len() == 0 {
                    Seq::empty()
                } else {
                    newline_text(ind, Spacing::Joint) + indent_text(ind, level + 1) + trees_text(
                        ind,
                        level + 1,
                        inner@,
                        Spacing::Joint,
                    ) + newline_text(ind, Spacing::Joint) + indent_text(ind, level)
                };
                self.write_char(open);
                if inner.len() > 0 {
                    self.write_group_body(inner);
                }
                self.write_char(close);
                let ghost w4 = self.writer@;
                assert(w4 =~= before + (seq![open] + body + seq![close]));
                let mut next = Spacing::Alone;
                if more {
                    self.write_newline_and_indent(Spacing::Alone);
                    next = Spacing::Joint;
                }
                let ghost after: Seq<char> = if more {
                    newline_text(ind, Spacing::Alone) + indent_text(ind, level)
                } else {
                    Seq::empty()
                };
                assert(self.writer@ =~= before + (seq![open] + body + seq![close] + after));
                next
            },
            _ => Spacing::Alone,
        }
    }
}

/// The text of the tokens of `tree` one after the other, with no layout:
/// identifiers, literals and punctuation as they are, groups between their
/// delimiters.
pub open spec fn tree_tokens_text(tree: TokenTree) -> Seq<char>
    decreases tree,
{
    match tree {
        TokenTree::Ident(text) => text@,
        TokenTree::Literal(text) => text@,
        TokenTree::Punct(c, _) => seq![c],
        TokenTree::Group(delimiter, inner) => if delimiter == Delimiter::Invisible {
            tokens_text(inner@)
        } else {
            seq![open_char(delimiter)] + tokens_text(inner@) + seq![close_char(delimiter)]
        },
    }
}

/// The text of the tokens of `trees` one after the other, with no layout.
pub open spec fn tokens_text(trees: Seq<TokenTree>) -> Seq<char>
    decreases trees,
{
    if trees.len() == 0 {
        Seq::empty()
    } else {
        tree_tokens_text(trees[0]) + tokens_text(trees.drop_first())
    }
}

/// Whether `keep` drops every character that the layout can write: the space,
/// and, when indenting, the newline and the characters of the indentation.
pub open spec fn drops_layout(indent: Option<Seq<char>>, keep: spec_fn(char) -> bool) -> bool {
    &&& !keep(' ')
    &&& indent matches Some(unit) ==> !keep('\n') && forall|i: int|
        0 <= i < unit.len() ==> !keep(#[trigger] unit[i])
}

proof fn lemma_filter_single(c: char, keep: spec_fn(char) -> bool)
    ensures
        seq![c].filter(keep) == if keep(c) {
            seq![c]
        } else {
            Seq::<char>::empty()
        },
{
    reveal_with_fuel(Seq::filter, 2);
    assert(seq![c].drop_last() =~= Seq::<char>::empty());
    assert(Seq::<char>::empty().push(c) =~= seq![c]);
}

proof fn lemma_filter_empty(keep: spec_fn(char) -> bool)
    ensures
        Seq::<char>::empty().filter(keep) == Seq::<char>::empty(),
{
    reveal_with_fuel(Seq::filter, 1);
}

proof fn lemma_filter_indent(indent: Option<Seq<char>>, level: nat, keep: spec_fn(char) -> bool)
    requires
        drops_layout(indent, keep),
    ensures
        indent_text(indent, level).filter(keep) == Seq::<char>::empty(),
    decreases level,
{
    broadcast use Seq::filter_distributes_over_add;

    lemma_filter_empty(keep);
    if let Some(unit) = indent {
        if level > 0 {
            lemma_filter_indent(indent, (level - 1) as nat, keep);
            if unit.filter(keep).len() > 0 {
                let c = unit.filter(keep)[0];
                unit.lemma_filter_pred(keep, 0);
                assert(unit.filter(keep).contains(c));
                unit.lemma_filter_contains_rev(keep, c);
                let i = choose|i: int| 0 <= i < unit.len() && unit[i] == c;
                assert(!keep(unit[i]));
            }
            assert(unit.filter(keep) =~= Seq::<char>::empty());
            assert(indent_text(indent, level) == indent_text(indent, (level - 1) as nat) + unit);
        }
    }
}

proof fn lemma_filter_newline(indent: Option<Seq<char>>, spacing: Spacing, keep: spec_fn(char) -> bool)
    requires
        drops_layout(indent, keep),
    ensures
        newline_text(indent, spacing).filter(keep) == Seq::<char>::empty(),
{
    lemma_filter_empty(keep);
    lemma_filter_single('\n', keep);
    lemma_filter_single(' ', keep);
}

/// Dropping the layout characters from the text of a token tree leaves the
/// tokens themselves.
pub proof fn lemma_tree_text_filter(
    indent: Option<Seq<char>>,
    level: nat,
    tree: TokenTree,
    more: bool,
    keep: spec_fn(char) -> bool,
)
    requires
        drops_layout(indent, keep),
    ensures
        tree_text(indent, level, tree, more).filter(keep) == tree_tokens_text(tree).filter(keep),
    decreases tree,
{
    broadcast use Seq::filter_distributes_over_add;

    lemma_filter_empty(keep);
    lemma_filter_indent(indent, level, keep);
    lemma_filter_indent(indent, level + 1, keep);
    lemma_filter_newline(indent, Spacing::Alone, keep);
    lemma_filter_newline(indent, Spacing::Joint, keep);
    match tree {
        TokenTree::Punct(c, spacing) => {
            lemma_filter_single(c, keep);
        },
        TokenTree::Group(delimiter, inner) => {
            if delimiter == Delimiter::Invisible {
                lemma_trees_text_filter(indent, level, inner@, Spacing::Joint, keep);
                assert(tree_text(indent, level, tree, more) == indent_text(indent, level)
                    + trees_text(indent, level, inner@, Spacing::Joint));
            } else {
                lemma_trees_text_filter(indent, level + 1, inner@, Spacing::Joint, keep);
                lemma_filter_single(open_char(delimiter), keep);
                lemma_filter_single(close_char(delimiter), keep);
                if inner.len() == 0 {
                    assert(inner@ =~= Seq::<TokenTree>::empty());
                    assert(tokens_text(inner@) =~= Seq::<char>::empty());
                }
            }
        },
        _ => {},
    }
}

/// Dropping the layout characters from the text of a sequence of token trees
/// leaves the tokens themselves.
pub proof fn lemma_trees_text_filter(
    indent: Option<Seq<char>>,
    level: nat,
    trees: Seq<TokenTree>,
    spacing: Spacing,
    keep: spec_fn(char) -> bool,
)
    requires
        drops_layout(indent, keep),
    ensures
        trees_text(indent, level, trees, spacing).filter(keep) == tokens_text(trees).filter(keep),
    decreases trees,
{
    broadcast use Seq::filter_distributes_over_add;

    lemma_filter_empty(keep);
    if trees.len() > 0 {
        let more = trees.len() > 1;
        lemma_filter_single(' ', keep);
        lemma_tree_text_filter(indent, level, trees[0], more, keep);
        lemma_trees_text_filter(
            indent,
            level,
            trees.drop_first(),
            spacing_after(trees[0], more),
            keep,
        );
    }
}

/// Formatting only adds layout: with the white space taken out, the text
/// written for a token stream is the text of its tokens one after the
/// other, for any indentation made of white space (as every formatter's
/// is).
pub proof fn law_formatting_only_adds_white_space(
    indent: Option<Seq<char>>,
    level: nat,
    trees: Seq<TokenTree>,
)
    requires
        indent matches Some(unit) ==> all_white_space(unit),
    ensures
        stream_text(indent, level, trees).filter(|c: char| !is_white_space(c)) == tokens_text(
            trees,
        ).filter(|c: char| !is_white_space(c)),
{
    broadcast use Seq::filter_distributes_over_add;

    let keep = |c: char| !is_white_space(c);
    assert(is_white_space(' ') && is_white_space('\n'));
    lemma_filter_indent(indent, level, keep);
    lemma_trees_text_filter(indent, level, trees, Spacing::Joint, keep);
    assert(Seq::<char>::empty() + tokens_text(trees).filter(keep) =~= tokens_text(trees).filter(
        keep,
    ));
}

/// Pretty and compact formatting of the same tokens differ only in white
/// space.
pub proof fn law_pretty_and_compact_agree(trees: Seq<TokenTree>)
    ensures
        stream_text(pretty_indent(), 0, trees).filter(|c: char| !is_white_space(c)) == stream_text(
            None,
            0,
            trees,
        ).filter(|c: char| !is_white_space(c)),
{
    reveal_strlit("    ");
    assert(all_white_space("    "@));
    law_formatting_only_adds_white_space(pretty_indent(), 0, trees);
    law_formatting_only_adds_white_space(None, 0, trees);
}

/// Compact formatting adds no line breaks and no indentation: apart from
/// spaces, its text is the text of the tokens, so it holds a newline only
/// where a token does.
pub proof fn law_compact_adds_only_spaces(level: nat, trees: Seq<TokenTree>)
    ensures
        stream_text(None, level, trees).filter(|c: char| c != ' ') == tokens_text(trees).filter(
            |c: char| c != ' ',
        ),
        !tokens_text(trees).contains('\n') ==> !stream_text(None, level, trees).contains('\n'),
{
    broadcast use Seq::filter_distributes_over_add;

    let keep = |c: char| c != ' ';
    lemma_filter_indent(None, level, keep);
    lemma_trees_text_filter(None, level, trees, Spacing::Joint, keep);
    assert(Seq::<char>::empty() + tokens_text(trees).filter(keep) =~= tokens_text(trees).filter(
        keep,
    ));
    let out = stream_text(None, level, trees);
    if out.contains('\n') {
        let i = choose|i: int| 0 <= i < out.len() && out[i] == '\n';
        out.lemma_filter_contains(keep, i);
        assert(out.filter(keep).contains('\n'));
        tokens_text(trees).lemma_filter_contains_rev(keep, '\n');
    }
}

/// The indentation of a pretty-printing formatter: four spaces.
pub open spec fn pretty_indent() -> Option<Seq<char>> {
    Some("    "@)
}

/// Appends to `writer` the text of `formatter` once it has formatted
/// `stream`; fails as `TokenStreamFormatter::write` does.
fn format_with(mut formatter: TokenStreamFormatter, tokens: TokenStream, writer: &mut String) -> (r:
    Result<(), FormatError>)
    requires
        formatter.level() == 0,
        formatter.written().len() == 0,
    ensures
        r is Ok <==> nesting(token_trees(tokens)) <= usize::MAX,
        r is Ok ==> final(writer)@ == old(writer)@ + stream_text(
            formatter.indent(),
            0,
            token_trees(tokens),
        ),
        r is Err ==> final(writer)@ == old(writer)@,
{
    let r = formatter.write(tokens);
    if r.is_ok() {
        writer.append(formatter.output().as_str());
    }
    r
}

/// Pretty-prints `tokens` (with `TokenStreamFormatter::pretty`) to `writer`.
pub fn format_tokens_pretty(tokens: TokenStream, writer: &mut String) -> (r: Result<(), FormatError>)
    ensures
        r is Ok <==> nesting(token_trees(tokens)) <= usize::MAX,
        r is Ok ==> final(writer)@ == old(writer)@ + stream_text(
            pretty_indent(),
            0,
            token_trees(tokens),
        ),
        r is Err ==> final(writer)@ == old(writer)@,
{
    format_with(TokenStreamFormatter::pretty(String::new()), tokens, writer)
}

/// Prints `tokens` compactly (with `TokenStreamFormatter::compact`) to
/// `writer`.
pub fn format_tokens_compact(tokens: TokenStream, writer: &mut String) -> (r: Result<(), FormatError>)
    ensures
        r is Ok <==> nesting(token_trees(tokens)) <= usize::MAX,
        r is Ok ==> final(writer)@ == old(writer)@ + stream_text(None, 0, token_trees(tokens)),
        r is Err ==> final(writer)@ == old(writer)@,
{
    format_with(TokenStreamFormatter::compact(String::new()), tokens, writer)
}

/// Formats `tokens` to `writer`: compactly when `alternate` is set (as by
/// `{:#}`), pretty-printed otherwise.
pub fn format_tokens(tokens: TokenStream, alternate: bool, writer: &mut String) -> (r: Result<
    (),
    FormatError,
>)
    ensures
        r is Ok <==> nesting(token_trees(tokens)) <= usize::MAX,
        r is Ok ==> final(writer)@ == old(writer)@ + stream_text(
            if alternate {
                None
            } else {
                pretty_indent()
            },
            0,
            token_trees(tokens),
        ),
        r is Err ==> final(writer)@ == old(writer)@,
{
    if alternate {
        format_tokens_compact(tokens, writer)
    } else {
        format_tokens_pretty(tokens, writer)
    }
}

/// Pretty-prints the tokens of the syntax tree node `node` to `writer`.
pub fn format_ast_node_pretty<T: ?Sized + ToTokens>(node: &T, writer: &mut String) -> (r: Result<
    (),
    FormatError,
>)
    ensures
        exists|tokens: TokenStream|
            #![trigger token_trees(tokens)]
            {
                &&& r is Ok <==> nesting(token_trees(tokens)) <= usize::MAX
                &&& r is Ok ==> final(writer)@ == old(writer)@ + stream_text(
                    pretty_indent(),
                    0,
                    token_trees(tokens),
                )
            },
        r is Err ==> final(writer)@ == old(writer)@,
{
    let stream = node_tokens(node);
    let ghost tokens = stream;
    let r = format_tokens_pretty(stream, writer);
    assert(r is Ok <==> nesting(token_trees(tokens)) <= usize::MAX);
    r
}

/// Prints the tokens of the syntax tree node `node` compactly to `writer`.
pub fn format_ast_node_compact<T: ?Sized + ToTokens>(node: &T, writer: &mut String) -> (r: Result<
    (),
    FormatError,
>)
    ensures
        exists|tokens: TokenStream|
            #![trigger token_trees(tokens)]
            {
                &&& r is Ok <==> nesting(token_trees(tokens)) <= usize::MAX
                &&& r is Ok ==> final(writer)@ == old(writer)@ + stream_text(
                    None,
                    0,
                    token_trees(tokens),
                )
            },
        r is Err ==> final(writer)@ == old(writer)@,
{
    let stream = node_tokens(node);
    let ghost tokens = stream;
    let r = format_tokens_compact(stream, writer);
    assert(r is Ok <==> nesting(token_trees(tokens)) <= usize::MAX);
    r
}

/// Formats the tokens of the syntax tree node `node` to `writer`: compactly
/// when `alternate` is set, pretty-printed otherwise.
pub fn format_ast_node<T: ?Sized + ToTokens>(node: &T, alternate: bool, writer: &mut String) -> (r:
    Result<(), FormatError>)
    ensures
        exists|tokens: TokenStream|
            #![trigger token_trees(tokens)]
            {
                &&& r is Ok <==> nesting(token_trees(tokens)) <= usize::MAX
                &&& r is Ok ==> final(writer)@ == old(writer)@ + stream_text(
                    if alternate {
                        None
                    } else {
                        pretty_indent()
                    },
                    0,
                    token_trees(tokens),
                )
            },
        r is Err ==> final(writer)@ == old(writer)@,
{
    if alternate {
        format_ast_node_compact(node, writer)
    } else {
        format_ast_node_pretty(node, writer)
    }
}

} // verus!
