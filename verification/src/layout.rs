//! The layout that formatting gives a token stream, token by token: the
//! text written is the tokens' own texts, in order, with only layout
//! (spaces, and when indenting newlines and indentation) between them.
use vstd::prelude::*;

use crate::formatter::{
    close_char, indent_text, newline_text, open_char, spacing_after, stream_text, tree_text,
    trees_text,
};
use crate::tokens::{Delimiter, Spacing, TokenTree};

verus! {

/// The texts of the tokens of `tree` in order: an identifier's or a
/// literal's text, a punctuation character, and a visible group's opening
/// delimiter, contents and closing delimiter. An invisible group contributes
/// its contents only.
pub open spec fn tree_pieces(tree: TokenTree) -> Seq<Seq<char>>
    decreases tree,
{
    match tree {
        TokenTree::Ident(text) => seq![text@],
        TokenTree::Literal(text) => seq![text@],
        TokenTree::Punct(c, _) => seq![seq![c]],
        TokenTree::Group(delimiter, inner) => if delimiter == Delimiter::Invisible {
            pieces(inner@)
        } else {
            seq![seq![open_char(delimiter)]] + pieces(inner@) + seq![seq![close_char(delimiter)]]
        },
    }
}

/// The texts of the tokens of `trees` in order.
pub open spec fn pieces(trees: Seq<TokenTree>) -> Seq<Seq<char>>
    decreases trees,
{
    if trees.len() == 0 {
        Seq::empty()
    } else {
        tree_pieces(trees[0]) + pieces(trees.drop_first())
    }
}

/// One unit of layout: a space, or, when indenting, a newline or one whole
/// copy of the indentation.
pub open spec fn is_layout_unit(indent: Option<Seq<char>>, part: Seq<char>) -> bool {
    part == seq![' '] || (indent matches Some(unit) && (part == seq!['\n'] || part == unit))
}

/// The parts one after the other.
pub open spec fn concat(parts: Seq<Seq<char>>) -> Seq<char>
    decreases parts.len(),
{
    if parts.len() == 0 {
        Seq::empty()
    } else {
        parts[0] + concat(parts.drop_first())
    }
}

/// `text` is the layout units `parts` one after the other.
pub open spec fn layout_of(indent: Option<Seq<char>>, parts: Seq<Seq<char>>, text: Seq<char>) -> bool {
    &&& forall|i: int| 0 <= i < parts.len() ==> is_layout_unit(indent, #[trigger] parts[i])
    &&& text == concat(parts)
}

/// Text made of layout units only: spaces, and when indenting, newlines and
/// whole copies of the indentation.
pub open spec fn is_layout(indent: Option<Seq<char>>, text: Seq<char>) -> bool {
    exists|parts: Seq<Seq<char>>| #[trigger] layout_of(indent, parts, text)
}

proof fn lemma_concat_add(p1: Seq<Seq<char>>, p2: Seq<Seq<char>>)
    ensures
        concat(p1 + p2) == concat(p1) + concat(p2),
    decreases p1.len(),
{
    if p1.len() == 0 {
        assert(p1 + p2 =~= p2);
        assert(concat(p1) + concat(p2) =~= concat(p2));
    } else {
        lemma_concat_add(p1.drop_first(), p2);
        assert((p1 + p2).drop_first() =~= p1.drop_first() + p2);
        assert((p1 + p2)[0] == p1[0]);
        assert(concat(p1 + p2) =~= concat(p1) + concat(p2));
    }
}

proof fn lemma_empty_is_layout(indent: Option<Seq<char>>)
    ensures
        is_layout(indent, Seq::<char>::empty()),
{
    assert(layout_of(indent, Seq::<Seq<char>>::empty(), Seq::<char>::empty()));
}

proof fn lemma_unit_is_layout(indent: Option<Seq<char>>, part: Seq<char>)
    requires
        is_layout_unit(indent, part),
    ensures
        is_layout(indent, part),
{
    let parts = seq![part];
    assert(parts.drop_first() =~= Seq::<Seq<char>>::empty());
    assert(concat(parts) =~= part + concat(Seq::<Seq<char>>::empty()));
    assert(layout_of(indent, parts, part));
}

/// Layout made of spaces only, when there is no indentation.
proof fn lemma_unindented_layout_is_spaces(parts: Seq<Seq<char>>)
    requires
        forall|i: int| 0 <= i < parts.len() ==> is_layout_unit(None, #[trigger] parts[i]),
    ensures
        forall|k: int| 0 <= k < concat(parts).len() ==> #[trigger] concat(parts)[k] == ' ',
    decreases parts.len(),
{
    if parts.len() > 0 {
        assert(is_layout_unit(None, parts[0]));
        assert forall|i: int| 0 <= i < parts.drop_first().len() implies is_layout_unit(
            None,
            #[trigger] parts.drop_first()[i],
        ) by {
            assert(parts.drop_first()[i] == parts[i + 1]);
        }
        lemma_unindented_layout_is_spaces(parts.drop_first());
        let rest = concat(parts.drop_first());
        assert forall|k: int| 0 <= k < concat(parts).len() implies #[trigger] concat(parts)[k]
            == ' ' by {
            if k < 1 {
                assert(concat(parts)[k] == parts[0][k]);
            } else {
                assert(concat(parts)[k] == rest[k - 1]);
            }
        }
    }
}

/// `gaps[0] + pieces[0] + gaps[1] + ... + pieces[n - 1] + gaps[n]`.
pub open spec fn weave(gaps: Seq<Seq<char>>, pieces: Seq<Seq<char>>) -> Seq<char>
    decreases pieces.len(),
{
    if pieces.len() == 0 {
        gaps[0]
    } else {
        gaps[0] + pieces[0] + weave(gaps.drop_first(), pieces.drop_first())
    }
}

/// `gaps` has one gap before, between and after the pieces, each of them
/// layout.
pub open spec fn layout_gaps(indent: Option<Seq<char>>, gaps: Seq<Seq<char>>, count: nat) -> bool {
    &&& gaps.len() == count + 1
    &&& forall|i: int| 0 <= i < gaps.len() ==> is_layout(indent, #[trigger] gaps[i])
}

/// `text` is the texts `pieces` in order, with layout between them.
pub open spec fn laid_out(indent: Option<Seq<char>>, text: Seq<char>, pieces: Seq<Seq<char>>) -> bool {
    exists|gaps: Seq<Seq<char>>|
        layout_gaps(indent, gaps, pieces.len()) && text == weave(gaps, pieces)
}

/// The space written before a token, after a token of spacing `spacing`.
pub open spec fn separator(spacing: Spacing) -> Seq<char> {
    if spacing == Spacing::Joint {
        Seq::empty()
    } else {
        seq![' ']
    }
}

/// `text` is `middle` with `before` in front of it and `after` behind it.
pub open spec fn surrounds(text: Seq<char>, before: Seq<char>, middle: Seq<char>, after: Seq<char>) -> bool {
    text == before + middle + after
}

proof fn lemma_layout_concat(indent: Option<Seq<char>>, a: Seq<char>, b: Seq<char>)
    requires
        is_layout(indent, a),
        is_layout(indent, b),
    ensures
        is_layout(indent, a + b),
{
    let pa = choose|parts: Seq<Seq<char>>| #[trigger] layout_of(indent, parts, a);
    let pb = choose|parts: Seq<Seq<char>>| #[trigger] layout_of(indent, parts, b);
    lemma_concat_add(pa, pb);
    assert forall|i: int| 0 <= i < (pa + pb).len() implies is_layout_unit(
        indent,
        #[trigger] (pa + pb)[i],
    ) by {
        if i < pa.len() {
            assert((pa + pb)[i] == pa[i]);
        } else {
            assert((pa + pb)[i] == pb[i - pa.len()]);
        }
    }
    assert(layout_of(indent, pa + pb, a + b));
}

proof fn lemma_indent_is_layout(indent: Option<Seq<char>>, level: nat)
    ensures
        is_layout(indent, indent_text(indent, level)),
    decreases level,
{
    lemma_empty_is_layout(indent);
    if let Some(unit) = indent {
        if level > 0 {
            lemma_indent_is_layout(indent, (level - 1) as nat);
            lemma_unit_is_layout(indent, unit);
            lemma_layout_concat(indent, indent_text(indent, (level - 1) as nat), unit);
        }
    }
}

proof fn lemma_break_is_layout(indent: Option<Seq<char>>, spacing: Spacing, level: nat)
    ensures
        is_layout(indent, indent_text(indent, level)),
        is_layout(indent, newline_text(indent, spacing)),
        is_layout(indent, newline_text(indent, spacing) + indent_text(indent, level)),
        is_layout(indent, separator(spacing)),
{
    lemma_empty_is_layout(indent);
    lemma_unit_is_layout(indent, seq![' ']);
    if indent is Some {
        lemma_unit_is_layout(indent, seq!['\n']);
    }
    lemma_indent_is_layout(indent, level);
    lemma_layout_concat(indent, newline_text(indent, spacing), indent_text(indent, level));
}

proof fn lemma_weave_prepend(a: Seq<char>, gaps: Seq<Seq<char>>, pieces: Seq<Seq<char>>)
    requires
        gaps.len() == pieces.len() + 1,
    ensures
        a + weave(gaps, pieces) == weave(gaps.update(0, a + gaps[0]), pieces),
{
    let g = gaps.update(0, a + gaps[0]);
    if pieces.len() > 0 {
        assert(g.drop_first() =~= gaps.drop_first());
        assert(a + weave(gaps, pieces) =~= weave(g, pieces));
    }
}

proof fn lemma_weave_append(gaps: Seq<Seq<char>>, pieces: Seq<Seq<char>>, b: Seq<char>)
    requires
        gaps.len() == pieces.len() + 1,
    ensures
        weave(gaps, pieces) + b == weave(
            gaps.update(gaps.len() - 1, gaps[gaps.len() - 1] + b),
            pieces,
        ),
    decreases pieces.len(),
{
    let g = gaps.update(gaps.len() - 1, gaps[gaps.len() - 1] + b);
    if pieces.len() > 0 {
        lemma_weave_append(gaps.drop_first(), pieces.drop_first(), b);
        assert(g.drop_first() =~= gaps.drop_first().update(
            gaps.drop_first().len() - 1,
            gaps.drop_first()[gaps.drop_first().len() - 1] + b,
        ));
        assert(weave(gaps, pieces) + b =~= weave(g, pieces));
    }
}

/// The gaps of two woven texts put one after the other: the last gap of the
/// first and the first gap of the second run together.
pub open spec fn join_gaps(g1: Seq<Seq<char>>, g2: Seq<Seq<char>>) -> Seq<Seq<char>> {
    g1.drop_last().push(g1.last() + g2[0]) + g2.drop_first()
}

proof fn lemma_weave_concat(
    g1: Seq<Seq<char>>,
    p1: Seq<Seq<char>>,
    g2: Seq<Seq<char>>,
    p2: Seq<Seq<char>>,
)
    requires
        g1.len() == p1.len() + 1,
        g2.len() == p2.len() + 1,
    ensures
        weave(g1, p1) + weave(g2, p2) == weave(join_gaps(g1, g2), p1 + p2),
        join_gaps(g1, g2).len() == (p1 + p2).len() + 1,
    decreases p1.len(),
{
    let j = join_gaps(g1, g2);
    if p1.len() == 0 {
        lemma_weave_prepend(g1[0], g2, p2);
        assert(j =~= g2.update(0, g1[0] + g2[0]));
        assert(p1 + p2 =~= p2);
    } else {
        lemma_weave_concat(g1.drop_first(), p1.drop_first(), g2, p2);
        assert(j.drop_first() =~= join_gaps(g1.drop_first(), g2));
        assert((p1 + p2).drop_first() =~= p1.drop_first() + p2);
        assert(j[0] == g1[0]);
        assert((p1 + p2)[0] == p1[0]);
        assert(weave(g1, p1) + weave(g2, p2) =~= weave(j, p1 + p2));
    }
}

proof fn lemma_join_layout(indent: Option<Seq<char>>, g1: Seq<Seq<char>>, g2: Seq<Seq<char>>)
    requires
        g1.len() > 0,
        g2.len() > 0,
        forall|i: int| 0 <= i < g1.len() ==> is_layout(indent, #[trigger] g1[i]),
        forall|i: int| 0 <= i < g2.len() ==> is_layout(indent, #[trigger] g2[i]),
    ensures
        forall|i: int|
            0 <= i < join_gaps(g1, g2).len() ==> is_layout(indent, #[trigger] join_gaps(g1, g2)[i]),
{
    lemma_layout_concat(indent, g1.last(), g2[0]);
    let j = join_gaps(g1, g2);
    assert forall|i: int| 0 <= i < j.len() implies is_layout(indent, #[trigger] j[i]) by {
        if i < g1.len() - 1 {
            assert(j[i] == g1[i]);
        } else if i == g1.len() - 1 {
            assert(j[i] == g1.last() + g2[0]);
        } else {
            assert(j[i] == g2[i - g1.len() + 1]);
        }
    }
}

proof fn lemma_update_layout(indent: Option<Seq<char>>, gaps: Seq<Seq<char>>, i: int, gap: Seq<char>)
    requires
        0 <= i < gaps.len(),
        forall|k: int| 0 <= k < gaps.len() ==> is_layout(indent, #[trigger] gaps[k]),
        is_layout(indent, gap),
    ensures
        forall|k: int|
            0 <= k < gaps.update(i, gap).len() ==> is_layout(indent, #[trigger] gaps.update(i, gap)[k]),
{
    assert forall|k: int| 0 <= k < gaps.update(i, gap).len() implies is_layout(
        indent,
        #[trigger] gaps.update(i, gap)[k],
    ) by {
        if k != i {
            assert(gaps.update(i, gap)[k] == gaps[k]);
        }
    }
}

/// Two empty gaps around one piece.
proof fn lemma_single_piece(indent: Option<Seq<char>>, piece: Seq<char>, after: Seq<char>) -> (gaps:
    Seq<Seq<char>>)
    requires
        is_layout(indent, after),
    ensures
        layout_gaps(indent, gaps, 1),
        weave(gaps, seq![piece]) == piece + after,
{
    let gaps = seq![Seq::<char>::empty(), after];
    assert(gaps.drop_first() =~= seq![after]);
    assert(seq![piece].drop_first() =~= Seq::<Seq<char>>::empty());
    assert(weave(seq![after], Seq::<Seq<char>>::empty()) == after);
    assert(weave(gaps, seq![piece]) == Seq::<char>::empty() + piece + weave(
        seq![after],
        Seq::<Seq<char>>::empty(),
    ));
    assert(weave(gaps, seq![piece]) =~= piece + after);
    lemma_empty_is_layout(indent);
    assert forall|i: int| 0 <= i < gaps.len() implies is_layout(indent, #[trigger] gaps[i]) by {}
    gaps
}

/// The text of one token tree is its pieces with layout between them.
proof fn lemma_tree_layout(indent: Option<Seq<char>>, level: nat, tree: TokenTree, more: bool) -> (gaps:
    Seq<Seq<char>>)
    ensures
        layout_gaps(indent, gaps, tree_pieces(tree).len()),
        tree_text(indent, level, tree, more) == weave(gaps, tree_pieces(tree)),
    decreases tree,
{
    lemma_break_is_layout(indent, Spacing::Alone, level);
    lemma_break_is_layout(indent, Spacing::Joint, level);
    lemma_empty_is_layout(indent);
    match tree {
        TokenTree::Ident(text) => lemma_single_piece(indent, text@, Seq::empty()),
        TokenTree::Literal(text) => lemma_single_piece(indent, text@, Seq::empty()),
        TokenTree::Punct(c, spacing) => {
            if (c == ',' || c == ';') && spacing == Spacing::Alone && more {
                lemma_single_piece(
                    indent,
                    seq![c],
                    newline_text(indent, Spacing::Alone) + indent_text(indent, level),
                )
            } else {
                lemma_single_piece(indent, seq![c], Seq::empty())
            }
        },
        TokenTree::Group(delimiter, inner) => {
            let inner_gaps = lemma_trees_layout(indent, level, inner@, Spacing::Joint);
            if delimiter == Delimiter::Invisible {
                lemma_weave_prepend(indent_text(indent, level), inner_gaps, pieces(inner@));
                lemma_layout_concat(indent, indent_text(indent, level), inner_gaps[0]);
                lemma_update_layout(
                    indent,
                    inner_gaps,
                    0,
                    indent_text(indent, level) + inner_gaps[0],
                );
                inner_gaps.update(0, indent_text(indent, level) + inner_gaps[0])
            } else {
                let lead = newline_text(indent, Spacing::Joint) + indent_text(indent, level + 1);
                let trail = newline_text(indent, Spacing::Joint) + indent_text(indent, level);
                let after = if more {
                    newline_text(indent, Spacing::Alone) + indent_text(indent, level)
                } else {
                    Seq::empty()
                };
                lemma_break_is_layout(indent, Spacing::Joint, level + 1);
                let body_gaps: Seq<Seq<char>> = if inner.len() == 0 {
                    assert(inner@.len() == 0);
                    assert(pieces(inner@) =~= Seq::<Seq<char>>::empty());
                    let g = seq![Seq::<char>::empty()];
                    assert forall|i: int| 0 <= i < g.len() implies is_layout(
                        indent,
                        #[trigger] g[i],
                    ) by {}
                    g
                } else {
                    let deeper = lemma_trees_layout(indent, level + 1, inner@, Spacing::Joint);
                    lemma_weave_prepend(lead, deeper, pieces(inner@));
                    lemma_layout_concat(indent, lead, deeper[0]);
                    lemma_update_layout(indent, deeper, 0, lead + deeper[0]);
                    let g1 = deeper.update(0, lead + deeper[0]);
                    lemma_weave_append(g1, pieces(inner@), trail);
                    lemma_layout_concat(indent, g1[g1.len() - 1], trail);
                    lemma_update_layout(indent, g1, g1.len() - 1, g1[g1.len() - 1] + trail);
                    g1.update(g1.len() - 1, g1[g1.len() - 1] + trail)
                };
                let body: Seq<char> = if inner.len() == 0 {
                    Seq::empty()
                } else {
                    newline_text(indent, Spacing::Joint) + indent_text(indent, level + 1)
                        + trees_text(indent, level + 1, inner@, Spacing::Joint) + newline_text(
                        indent,
                        Spacing::Joint,
                    ) + indent_text(indent, level)
                };
                assert(weave(body_gaps, pieces(inner@)) =~= body);
                let open_gaps = lemma_single_piece(indent, seq![open_char(delimiter)], Seq::empty());
                let close_gaps = lemma_single_piece(indent, seq![close_char(delimiter)], after);
                lemma_weave_concat(open_gaps, seq![seq![open_char(delimiter)]], body_gaps, pieces(inner@));
                lemma_join_layout(indent, open_gaps, body_gaps);
                let g2 = join_gaps(open_gaps, body_gaps);
                let p2 = seq![seq![open_char(delimiter)]] + pieces(inner@);
                lemma_weave_concat(g2, p2, close_gaps, seq![seq![close_char(delimiter)]]);
                lemma_join_layout(indent, g2, close_gaps);
                assert(seq![open_char(delimiter)] + Seq::<char>::empty() =~= seq![open_char(delimiter)]);
                assert(tree_text(indent, level, tree, more) =~= seq![open_char(delimiter)] + body
                    + (seq![close_char(delimiter)] + after));
                join_gaps(g2, close_gaps)
            }
        },
    }
}

/// The text of a sequence of token trees is their pieces with layout
/// between them.
proof fn lemma_trees_layout(
    indent: Option<Seq<char>>,
    level: nat,
    trees: Seq<TokenTree>,
    spacing: Spacing,
) -> (gaps: Seq<Seq<char>>)
    ensures
        layout_gaps(indent, gaps, pieces(trees).len()),
        trees_text(indent, level, trees, spacing) == weave(gaps, pieces(trees)),
    decreases trees,
{
    lemma_empty_is_layout(indent);
    if trees.len() == 0 {
        let g = seq![Seq::<char>::empty()];
        assert forall|i: int| 0 <= i < g.len() implies is_layout(indent, #[trigger] g[i]) by {}
        g
    } else {
        let more = trees.len() > 1;
        let first = lemma_tree_layout(indent, level, trees[0], more);
        let rest = lemma_trees_layout(
            indent,
            level,
            trees.drop_first(),
            spacing_after(trees[0], more),
        );
        lemma_break_is_layout(indent, spacing, 0);
        let sep = separator(spacing);
        lemma_weave_prepend(sep, first, tree_pieces(trees[0]));
        lemma_layout_concat(indent, sep, first[0]);
        lemma_update_layout(indent, first, 0, sep + first[0]);
        let g1 = first.update(0, sep + first[0]);
        lemma_weave_concat(g1, tree_pieces(trees[0]), rest, pieces(trees.drop_first()));
        lemma_join_layout(indent, g1, rest);
        assert(trees_text(indent, level, trees, spacing) =~= sep + tree_text(
            indent,
            level,
            trees[0],
            more,
        ) + trees_text(indent, level, trees.drop_first(), spacing_after(trees[0], more)));
        join_gaps(g1, rest)
    }
}

/// Formatting writes the tokens in order, each as its own text, with only
/// layout between them: spaces, and when indenting, newlines and whole
/// copies of the indentation.
pub proof fn law_tokens_in_order_with_layout_between(
    indent: Option<Seq<char>>,
    level: nat,
    trees: Seq<TokenTree>,
)
    ensures
        laid_out(indent, stream_text(indent, level, trees), pieces(trees)),
{
    let gaps = lemma_trees_layout(indent, level, trees, Spacing::Joint);
    lemma_indent_is_layout(indent, level);
    lemma_weave_prepend(indent_text(indent, level), gaps, pieces(trees));
    lemma_layout_concat(indent, indent_text(indent, level), gaps[0]);
    lemma_update_layout(indent, gaps, 0, indent_text(indent, level) + gaps[0]);
    let g = gaps.update(0, indent_text(indent, level) + gaps[0]);
    assert(layout_gaps(indent, g, pieces(trees).len()));
}

/// Compact formatting writes the tokens in order with nothing but spaces
/// between them.
pub proof fn law_compact_puts_only_spaces_between_tokens(level: nat, trees: Seq<TokenTree>)
    ensures
        exists|gaps: Seq<Seq<char>>|
            {
                &&& gaps.len() == pieces(trees).len() + 1
                &&& forall|i: int, k: int|
                    0 <= i < gaps.len() && 0 <= k < gaps[i].len() ==> #[trigger] gaps[i][k] == ' '
                &&& stream_text(None, level, trees) == weave(gaps, pieces(trees))
            },
{
    law_tokens_in_order_with_layout_between(None, level, trees);
    let gaps = choose|gaps: Seq<Seq<char>>|
        layout_gaps(None, gaps, pieces(trees).len()) && stream_text(None, level, trees) == weave(
            gaps,
            pieces(trees),
        );
    assert forall|i: int, k: int| 0 <= i < gaps.len() && 0 <= k < gaps[i].len() implies #[trigger] gaps[i][k]
        == ' ' by {
        assert(is_layout(None, gaps[i]));
        let parts = choose|parts: Seq<Seq<char>>| #[trigger] layout_of(None, parts, gaps[i]);
        lemma_unindented_layout_is_spaces(parts);
    }
}

/// The text of a sequence of token trees around its tree at position `i`:
/// what comes before (returned with the spacing that the tree sees), the
/// separator, the tree's own text, then the text of the trees after it.
pub proof fn lemma_trees_text_at(
    indent: Option<Seq<char>>,
    level: nat,
    trees: Seq<TokenTree>,
    spacing: Spacing,
    i: int,
) -> (split: (Seq<char>, Spacing))
    requires
        0 <= i < trees.len(),
    ensures
        trees_text(indent, level, trees, spacing) == split.0 + separator(split.1) + tree_text(
            indent,
            level,
            trees[i],
            i + 1 < trees.len(),
        ) + trees_text(
            indent,
            level,
            trees.skip(i + 1),
            spacing_after(trees[i], i + 1 < trees.len()),
        ),
    decreases i,
{
    let more = trees.len() > 1;
    let rest = trees.drop_first();
    let next = spacing_after(trees[0], more);
    let head = separator(spacing) + tree_text(indent, level, trees[0], more);
    let whole = trees_text(indent, level, trees, spacing);
    assert(whole == head + trees_text(indent, level, rest, next));
    if i == 0 {
        assert(trees.skip(1) =~= rest);
        assert(whole =~= Seq::<char>::empty() + separator(spacing) + tree_text(
            indent,
            level,
            trees[0],
            more,
        ) + trees_text(indent, level, rest, next));
        (Seq::empty(), spacing)
    } else {
        let (before, spacing_before) = lemma_trees_text_at(indent, level, rest, next, i - 1);
        assert(rest[i - 1] == trees[i]);
        assert(rest.skip(i) =~= trees.skip(i + 1));
        let piece = separator(spacing_before) + tree_text(indent, level, trees[i], i + 1 < trees.len());
        let tail = trees_text(
            indent,
            level,
            trees.skip(i + 1),
            spacing_after(trees[i], i + 1 < trees.len()),
        );
        assert(trees_text(indent, level, rest, next) == before + piece + tail);
        assert(whole =~= (head + before) + piece + tail);
        (head + before, spacing_before)
    }
}

/// The text of a separating `,` or `;` at position `i` and of the token
/// after it, when indenting with `unit`: the character, a newline, the
/// indentation of the level, then the next token's text.
pub open spec fn break_after_separator(unit: Seq<char>, level: nat, trees: Seq<TokenTree>, i: int) -> Seq<
    char,
> {
    tree_pieces(trees[i])[0] + seq!['\n'] + indent_text(Some(unit), level) + tree_text(
        Some(unit),
        level,
        trees[i + 1],
        i + 2 < trees.len(),
    )
}

/// The text of the visible group at position `i` of `trees`, when
/// indenting with `unit`: the opening delimiter; unless the contents are
/// empty, a newline, the contents formatted one level deeper, a newline and
/// the indentation of the level; the closing delimiter; and, unless the
/// group is the last tree, a newline and the indentation.
pub open spec fn group_layout(unit: Seq<char>, level: nat, trees: Seq<TokenTree>, i: int) -> Seq<char> {
    match trees[i] {
        TokenTree::Group(delimiter, inner) => seq![open_char(delimiter)] + (if inner.len() == 0 {
            Seq::empty()
        } else {
            seq!['\n'] + stream_text(Some(unit), level + 1, inner@) + seq!['\n'] + indent_text(
                Some(unit),
                level,
            )
        }) + seq![close_char(delimiter)] + (if i + 1 == trees.len() {
            Seq::empty()
        } else {
            seq!['\n'] + indent_text(Some(unit), level)
        }),
        _ => Seq::empty(),
    }
}

/// When indenting, a `,` or `;` that stands alone and is not the last token
/// is followed directly by a newline, the indentation of its level, and the
/// text of the next token, with no other space.
pub proof fn law_line_break_after_separator(
    unit: Seq<char>,
    level: nat,
    trees: Seq<TokenTree>,
    i: int,
)
    requires
        0 <= i,
        i + 1 < trees.len(),
        trees[i] matches TokenTree::Punct(c, spacing) && (c == ',' || c == ';') && spacing
            == Spacing::Alone,
    ensures
        exists|before: Seq<char>, after: Seq<char>|
            #[trigger] surrounds(
                stream_text(Some(unit), level, trees),
                before,
                break_after_separator(unit, level, trees, i),
                after,
            ),
{
    let indent = Some(unit);
    let (before, spacing_before) = lemma_trees_text_at(indent, level, trees, Spacing::Joint, i);
    let rest = trees.skip(i + 1);
    assert(rest[0] == trees[i + 1]);
    assert(rest.drop_first() =~= trees.skip(i + 2));
    let after = trees_text(
        indent,
        level,
        trees.skip(i + 2),
        spacing_after(trees[i + 1], i + 2 < trees.len()),
    );
    assert(trees_text(indent, level, rest, Spacing::Joint) =~= tree_text(
        indent,
        level,
        trees[i + 1],
        i + 2 < trees.len(),
    ) + after);
    let middle = tree_pieces(trees[i])[0] + seq!['\n'] + indent_text(indent, level) + tree_text(
        indent,
        level,
        trees[i + 1],
        i + 2 < trees.len(),
    );
    assert(middle == break_after_separator(unit, level, trees, i));
    let front = indent_text(indent, level) + before + separator(spacing_before);
    assert(stream_text(indent, level, trees) =~= front + middle + after);
    assert(surrounds(stream_text(indent, level, trees), front, middle, after));
}

/// The text of the punctuation at position `i` and of the token after it,
/// when no line ends between them: the character, one space if it stands
/// alone (none if it is joint), then the next token's text.
pub open spec fn punct_then_next(indent: Option<Seq<char>>, level: nat, trees: Seq<TokenTree>, i: int) -> Seq<
    char,
> {
    match trees[i] {
        TokenTree::Punct(c, spacing) => seq![c] + separator(spacing) + tree_text(
            indent,
            level,
            trees[i + 1],
            i + 2 < trees.len(),
        ),
        _ => Seq::empty(),
    }
}

/// Punctuation other than `,` and `;` never ends a line, with or without
/// indentation: its character is followed by one space when it stands
/// alone, or nothing when it is joint, and then directly by the text of the
/// next token.
pub proof fn law_no_break_after_other_punctuation(
    indent: Option<Seq<char>>,
    level: nat,
    trees: Seq<TokenTree>,
    i: int,
)
    requires
        0 <= i,
        i + 1 < trees.len(),
        trees[i] matches TokenTree::Punct(c, _) && c != ',' && c != ';',
    ensures
        exists|before: Seq<char>, after: Seq<char>|
            #[trigger] surrounds(
                stream_text(indent, level, trees),
                before,
                punct_then_next(indent, level, trees, i),
                after,
            ),
{
    let (before, spacing_before) = lemma_trees_text_at(indent, level, trees, Spacing::Joint, i);
    if let TokenTree::Punct(c, spacing) = trees[i] {
        let rest = trees.skip(i + 1);
        assert(rest[0] == trees[i + 1]);
        assert(rest.drop_first() =~= trees.skip(i + 2));
        let after = trees_text(
            indent,
            level,
            trees.skip(i + 2),
            spacing_after(trees[i + 1], i + 2 < trees.len()),
        );
        assert(trees_text(indent, level, rest, spacing) =~= separator(spacing) + tree_text(
            indent,
            level,
            trees[i + 1],
            i + 2 < trees.len(),
        ) + after);
        let middle = seq![c] + separator(spacing) + tree_text(indent, level, trees[i + 1], i + 2 < trees.len());
        assert(middle == punct_then_next(indent, level, trees, i));
        let front = indent_text(indent, level) + before + separator(spacing_before);
        assert(stream_text(indent, level, trees) =~= front + middle + after);
        assert(surrounds(stream_text(indent, level, trees), front, middle, after));
    }
}

/// When indenting, a visible group is written as its opening delimiter,
/// then, unless it is empty, a newline, its contents formatted one level
/// deeper, a newline and the indentation of its level, then its closing
/// delimiter, followed by a newline and the indentation when it is not the
/// last token.
pub proof fn law_group_layout(unit: Seq<char>, level: nat, trees: Seq<TokenTree>, i: int)
    requires
        0 <= i < trees.len(),
        trees[i] matches TokenTree::Group(delimiter, _) && delimiter != Delimiter::Invisible,
    ensures
        exists|before: Seq<char>, after: Seq<char>|
            #[trigger] surrounds(
                stream_text(Some(unit), level, trees),
                before,
                group_layout(unit, level, trees, i),
                after,
            ),
{
    let indent = Some(unit);
    let (before, spacing_before) = lemma_trees_text_at(indent, level, trees, Spacing::Joint, i);
    let after = trees_text(
        indent,
        level,
        trees.skip(i + 1),
        spacing_after(trees[i], i + 1 < trees.len()),
    );
    if let TokenTree::Group(delimiter, inner) = trees[i] {
        let body: Seq<char> = if inner.len() == 0 {
            Seq::empty()
        } else {
            seq!['\n'] + stream_text(indent, level + 1, inner@) + seq!['\n'] + indent_text(
                indent,
                level,
            )
        };
        let tail: Seq<char> = if i + 1 < trees.len() {
            seq!['\n'] + indent_text(indent, level)
        } else {
            Seq::empty()
        };
        assert(tree_text(indent, level, trees[i], i + 1 < trees.len()) =~= seq![open_char(delimiter)]
            + body + seq![close_char(delimiter)] + tail);
        let front = indent_text(indent, level) + before + separator(spacing_before);
        let middle = seq![open_char(delimiter)] + body + seq![close_char(delimiter)] + tail;
        assert(middle =~= group_layout(unit, level, trees, i));
        assert(stream_text(indent, level, trees) =~= front + middle + after);
        assert(surrounds(stream_text(indent, level, trees), front, middle, after));
    }
}

} // verus!
