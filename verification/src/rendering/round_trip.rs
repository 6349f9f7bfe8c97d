//! Rendering undoes parsing: the markup of a parsed document is the
//! document.

use super::{heading, lemma_render_all_concat, lemma_render_all_single, render_all, render_block, stars};
use crate::air::block::BlockView;
use crate::parsing::lexer::{
    lemma_lex_from, lex, token_at, Lexeme, TokenType,
};
use crate::parsing::parser::{
    blocks_from, category_block, category_level, lemma_asterisk_run_bounds,
    lemma_line_end_bounds, lemma_token_start_step, lemma_token_starts_ordered, line_end,
    line_text, next_block, parse_document, token_start,
};
use crate::parsing::shape::{
    lemma_blocks_from_bounds, lemma_category_block_bounds, lemma_next_block_advances,
};
use vstd::prelude::*;

verus! {

/// The text between the beginnings of tokens `i` and `j`.
pub open spec fn text_between(tokens: Seq<Lexeme>, doc: Seq<char>, i: int, j: int) -> Seq<char> {
    doc.subrange(token_start(tokens, doc, i), token_start(tokens, doc, j))
}

/// A `*` token spans one character, which is `*`; a space token spans one
/// character, which is a space.
proof fn lemma_marker_tokens(doc: Seq<char>, p: int)
    requires
        0 <= p < doc.len(),
    ensures
        token_at(doc, p).0 == TokenType::Asterisk ==> doc[p] == '*' && token_at(doc, p).1 == p + 1,
        token_at(doc, p).0 == TokenType::Space ==> doc[p] == ' ' && token_at(doc, p).1 == p + 1,
{
}

/// The text of `n` consecutive `*` tokens is `n` marker characters.
proof fn lemma_asterisk_text(doc: Seq<char>, i: int, n: nat)
    requires
        doc.len() <= usize::MAX,
        0 <= i,
        i + n <= lex(doc).len(),
        forall|j: int| i <= j < i + n ==> (#[trigger] lex(doc)[j]).tok_type == TokenType::Asterisk,
    ensures
        token_start(lex(doc), doc, i + n) == token_start(lex(doc), doc, i) + n,
        text_between(lex(doc), doc, i, i + n) == stars(n),
    decreases n,
{
    let tokens = lex(doc);
    lemma_lex_from(doc, 0);
    if n == 0 {
        assert(text_between(tokens, doc, i, i) =~= stars(0));
    } else {
        let m = (n - 1) as nat;
        lemma_asterisk_text(doc, i, m);
        let t = tokens[i + m];
        assert(t.tok_type == TokenType::Asterisk);
        lemma_marker_tokens(doc, t.lexeme_start as int);
        lemma_token_start_step(tokens, doc, i + m);
        lemma_token_starts_ordered(tokens, doc, i, i + m);
        lemma_token_starts_ordered(tokens, doc, i + m, i + n);
        assert(text_between(tokens, doc, i, i + n) =~= stars(n));
    }
}

/// The text of a headline's marker is its `*` characters and one space.
proof fn lemma_marker_text(doc: Seq<char>, i: int)
    requires
        doc.len() <= usize::MAX,
        0 <= i < lex(doc).len(),
        category_level(lex(doc), i) is Some,
    ensures
        ({
            let (level, content) = category_level(lex(doc), i)->0;
            &&& i < content <= lex(doc).len()
            &&& text_between(lex(doc), doc, i, content) == stars(level) + seq![' ']
        }),
{
    let tokens = lex(doc);
    let (level, content) = category_level(tokens, i)->0;
    lemma_lex_from(doc, 0);
    lemma_asterisk_run_bounds(tokens, i);
    lemma_asterisk_text(doc, i, level);
    let t = tokens[i + level];
    assert(t.tok_type == TokenType::Space);
    lemma_marker_tokens(doc, t.lexeme_start as int);
    lemma_token_start_step(tokens, doc, i + level);
    lemma_token_starts_ordered(tokens, doc, i, i + level);
    lemma_token_starts_ordered(tokens, doc, i + level, content);
    assert(text_between(tokens, doc, i, content) =~= stars(level) + seq![' ']);
}

/// Text from `i` to `j` followed by text from `j` to `k` is the text from
/// `i` to `k`.
proof fn lemma_text_between_joins(doc: Seq<char>, i: int, j: int, k: int)
    requires
        doc.len() <= usize::MAX,
        0 <= i <= j <= k,
    ensures
        text_between(lex(doc), doc, i, j) + text_between(lex(doc), doc, j, k) == text_between(
            lex(doc),
            doc,
            i,
            k,
        ),
{
    let tokens = lex(doc);
    lemma_lex_from(doc, 0);
    lemma_token_starts_ordered(tokens, doc, i, j);
    lemma_token_starts_ordered(tokens, doc, j, k);
    assert(text_between(tokens, doc, i, j) + text_between(tokens, doc, j, k) =~= text_between(
        tokens,
        doc,
        i,
        k,
    ));
}

/// The markup of a block is the text of the tokens that it was made of.
proof fn lemma_render_next_block(doc: Seq<char>, i: int, bound: Option<nat>)
    requires
        doc.len() <= usize::MAX,
        0 <= i <= lex(doc).len(),
    ensures
        match next_block(lex(doc), doc, i, bound) {
            Some((block, next)) => {
                &&& i < next <= lex(doc).len()
                &&& render_block(block) == text_between(lex(doc), doc, i, next)
            },
            None => i == lex(doc).len() || bound is Some,
        },
    decreases lex(doc).len() - i, 1nat,
{
    let tokens = lex(doc);
    lemma_next_block_advances(tokens, doc, i, bound);
    if i < tokens.len() {
        match category_level(tokens, i) {
            Some((level, content)) => {
                if !(bound is Some && bound->0 >= level) {
                    lemma_marker_text(doc, i);
                    lemma_render_category_block(doc, content, Some(level));
                    let (category, next) = category_block(tokens, doc, content, Some(level));
                    lemma_category_block_bounds(tokens, doc, content, Some(level));
                    lemma_text_between_joins(doc, i, content, next);
                    assert(heading(category) == stars(level) + seq![' '] + category.name);
                    assert(render_block(BlockView::Category(category)) =~= (stars(level) + seq![
                        ' ',
                    ]) + (category.name + render_all(category.children)));
                }
            },
            None => {
                let text = BlockView::Text(line_text(tokens, doc, i));
                lemma_render_all_single(text);
            },
        }
    }
}

/// The name of a category and the markup of its children are the text
/// from the first token of its content to the end of its last child.
proof fn lemma_render_category_block(doc: Seq<char>, i: int, level: Option<nat>)
    requires
        doc.len() <= usize::MAX,
        0 <= i <= lex(doc).len(),
    ensures
        ({
            let (category, next) = category_block(lex(doc), doc, i, level);
            category.name + render_all(category.children) == text_between(lex(doc), doc, i, next)
        }),
    decreases lex(doc).len() - i, 3nat,
{
    let tokens = lex(doc);
    lemma_line_end_bounds(tokens, i);
    let e = line_end(tokens, i);
    lemma_render_blocks_from(doc, e, level);
    lemma_blocks_from_bounds(tokens, doc, e, level);
    lemma_text_between_joins(doc, i, e, blocks_from(tokens, doc, e, level).1);
}

/// The markup of a run of blocks is the text of the tokens that it was
/// made of, and a run under no bound takes every token.
proof fn lemma_render_blocks_from(doc: Seq<char>, i: int, bound: Option<nat>)
    requires
        doc.len() <= usize::MAX,
        0 <= i <= lex(doc).len(),
    ensures
        ({
            let (blocks, end) = blocks_from(lex(doc), doc, i, bound);
            &&& render_all(blocks) == text_between(lex(doc), doc, i, end)
            &&& bound is None ==> end == lex(doc).len()
        }),
    decreases lex(doc).len() - i, 2nat,
{
    let tokens = lex(doc);
    lemma_render_next_block(doc, i, bound);
    match next_block(tokens, doc, i, bound) {
        Some((block, next)) => {
            lemma_render_blocks_from(doc, next, bound);
            let (rest, end) = blocks_from(tokens, doc, next, bound);
            lemma_blocks_from_bounds(tokens, doc, next, bound);
            lemma_render_all_single(block);
            lemma_render_all_concat(seq![block], rest);
            lemma_text_between_joins(doc, i, next, end);
        },
        None => {
            lemma_lex_from(doc, 0);
            lemma_token_starts_ordered(tokens, doc, i, i);
            assert(text_between(tokens, doc, i, i) =~= Seq::<char>::empty());
        },
    }
}

/// Rendering undoes parsing: the markup of the blocks of a parsed
/// document is the document, character for character.
pub proof fn lemma_render_inverts_parse(doc: Seq<char>)
    requires
        doc.len() <= usize::MAX,
    ensures
        render_all(parse_document(doc)) == doc,
{
    let tokens = lex(doc);
    lemma_render_blocks_from(doc, 0, None);
    lemma_lex_from(doc, 0);
    if tokens.len() > 0 {
        assert(tokens[0].lexeme_start == 0);
    }
    assert(text_between(tokens, doc, 0, tokens.len() as int) =~= doc);
}

/// Parsing the markup of a parsed document gives the same tree again:
/// the same kinds of block, levels, names and contents, in the same order.
pub proof fn lemma_reparse_is_stable(doc: Seq<char>)
    requires
        doc.len() <= usize::MAX,
    ensures
        parse_document(render_all(parse_document(doc))) == parse_document(doc),
{
    lemma_render_inverts_parse(doc);
}

} // verus!
