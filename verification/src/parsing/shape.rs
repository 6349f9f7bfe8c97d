//! The shape of parsed documents: how levels nest and how siblings follow
//! one another.

use super::lexer::Lexeme;
use super::parser::{
    blocks_from, category_block, category_level, lemma_asterisk_run_bounds,
    lemma_line_end_bounds, line_end, next_block, parse_document,
};
use crate::air::block::BlockView;
use vstd::prelude::*;

verus! {

/// The level of a category; 0 for the other kinds of block.
pub open spec fn level_of(b: BlockView) -> nat {
    match b {
        BlockView::Category(c) => c.level,
        _ => 0,
    }
}

/// `b` is a block as the parser makes them under an enclosing level
/// `bound`: a fresh category that lies deeper than `bound` and whose
/// children are in outline shape under its own level, or a rich text block
/// around exactly one text block.
pub open spec fn block_shaped(b: BlockView, bound: Option<nat>) -> bool
    decreases b, 0nat,
{
    match b {
        BlockView::Category(c) => {
            &&& c.level >= 1
            &&& bound is Some ==> c.level > bound->0
            &&& c.id is None
            &&& c.matches.len() == 0
            &&& c.captures.len() == 0
            &&& outline_shaped(c.children, Some(c.level))
        },
        BlockView::RichText(children) => children.len() == 1 && children[0] is Text,
        BlockView::Text(_) => false,
    }
}

/// `blocks` is a sequence of siblings as the parser makes them under an
/// enclosing level `bound`: each block is shaped, body lines come before
/// the first category, and from one category to a later one the level
/// never grows.
pub open spec fn outline_shaped(blocks: Seq<BlockView>, bound: Option<nat>) -> bool
    decreases blocks, 1nat,
{
    &&& forall|i: int| 0 <= i < blocks.len() ==> block_shaped(#[trigger] blocks[i], bound)
    &&& forall|i: int, j: int|
        0 <= i < j < blocks.len() && (#[trigger] blocks[i]) is Category ==> (
        #[trigger] blocks[j]) is Category && level_of(blocks[j]) <= level_of(blocks[i])
}

/// At token `i` the input ends or a headline of level at most `cap`
/// begins.
pub open spec fn capped_at(tokens: Seq<Lexeme>, i: int, cap: nat) -> bool {
    i >= tokens.len() || match category_level(tokens, i) {
        Some((level, content)) => level <= cap,
        None => false,
    }
}

/// A block, where one is taken, ends after the token at which it begins
/// and within the input; a run of blocks ends within the input.
pub proof fn lemma_next_block_advances(
    tokens: Seq<Lexeme>,
    doc: Seq<char>,
    i: int,
    bound: Option<nat>,
)
    requires
        0 <= i,
    ensures
        match next_block(tokens, doc, i, bound) {
            Some((block, next)) => i < next <= tokens.len(),
            None => true,
        },
    decreases tokens.len() - i, 1nat,
{
    if i < tokens.len() {
        match category_level(tokens, i) {
            Some((level, content)) => {
                lemma_asterisk_run_bounds(tokens, i);
                if !(bound is Some && bound->0 >= level) {
                    lemma_category_block_bounds(tokens, doc, content, Some(level));
                }
            },
            None => {
                lemma_line_end_bounds(tokens, i);
            },
        }
    }
}

pub proof fn lemma_category_block_bounds(
    tokens: Seq<Lexeme>,
    doc: Seq<char>,
    i: int,
    level: Option<nat>,
)
    requires
        0 <= i <= tokens.len(),
    ensures
        i <= category_block(tokens, doc, i, level).1 <= tokens.len(),
    decreases tokens.len() - i, 3nat,
{
    lemma_line_end_bounds(tokens, i);
    lemma_blocks_from_bounds(tokens, doc, line_end(tokens, i), level);
}

pub proof fn lemma_blocks_from_bounds(
    tokens: Seq<Lexeme>,
    doc: Seq<char>,
    i: int,
    bound: Option<nat>,
)
    requires
        0 <= i <= tokens.len(),
    ensures
        i <= blocks_from(tokens, doc, i, bound).1 <= tokens.len(),
    decreases tokens.len() - i, 2nat,
{
    lemma_next_block_advances(tokens, doc, i, bound);
    match next_block(tokens, doc, i, bound) {
        Some((block, next)) => {
            lemma_blocks_from_bounds(tokens, doc, next, bound);
        },
        None => {},
    }
}

/// A run of blocks ends where no further block is taken under its bound.
pub proof fn lemma_blocks_from_stops(
    tokens: Seq<Lexeme>,
    doc: Seq<char>,
    i: int,
    bound: Option<nat>,
)
    requires
        0 <= i <= tokens.len(),
    ensures
        next_block(tokens, doc, blocks_from(tokens, doc, i, bound).1, bound) is None,
    decreases tokens.len() - i,
{
    lemma_next_block_advances(tokens, doc, i, bound);
    match next_block(tokens, doc, i, bound) {
        Some((block, next)) => {
            lemma_blocks_from_stops(tokens, doc, next, bound);
        },
        None => {},
    }
}

/// A category's run of children ends at the end of the input or at a
/// headline that is no deeper than the category.
pub proof fn lemma_category_block_stops(
    tokens: Seq<Lexeme>,
    doc: Seq<char>,
    i: int,
    level: nat,
)
    requires
        0 <= i <= tokens.len(),
    ensures
        capped_at(tokens, category_block(tokens, doc, i, Some(level)).1, level),
{
    lemma_line_end_bounds(tokens, i);
    let e = line_end(tokens, i);
    lemma_blocks_from_stops(tokens, doc, e, Some(level));
    lemma_blocks_from_bounds(tokens, doc, e, Some(level));
}

/// Where a headline of level at most `cap` begins, every block of the run
/// is a category of level at most `cap`.
pub proof fn lemma_blocks_from_capped(
    tokens: Seq<Lexeme>,
    doc: Seq<char>,
    i: int,
    bound: Option<nat>,
    cap: nat,
)
    requires
        0 <= i <= tokens.len(),
        capped_at(tokens, i, cap),
    ensures
        forall|j: int|
            0 <= j < blocks_from(tokens, doc, i, bound).0.len() ==> {
                let b = #[trigger] blocks_from(tokens, doc, i, bound).0[j];
                b is Category && level_of(b) <= cap
            },
    decreases tokens.len() - i,
{
    lemma_next_block_advances(tokens, doc, i, bound);
    match next_block(tokens, doc, i, bound) {
        Some((block, next)) => {
            let (level, content) = category_level(tokens, i)->0;
            lemma_asterisk_run_bounds(tokens, i);
            lemma_category_block_stops(tokens, doc, content, level);
            lemma_blocks_from_capped(tokens, doc, next, bound, level);
            let rest = blocks_from(tokens, doc, next, bound).0;
            let all = blocks_from(tokens, doc, i, bound).0;
            assert(all == seq![block] + rest);
            assert forall|j: int| 0 <= j < all.len() implies {
                let b = #[trigger] all[j];
                b is Category && level_of(b) <= cap
            } by {
                if j > 0 {
                    assert(all[j] == rest[j - 1]);
                }
            }
        },
        None => {},
    }
}

/// Every block that the parser takes is shaped.
pub proof fn lemma_next_block_shaped(
    tokens: Seq<Lexeme>,
    doc: Seq<char>,
    i: int,
    bound: Option<nat>,
)
    requires
        0 <= i,
    ensures
        match next_block(tokens, doc, i, bound) {
            Some((block, next)) => block_shaped(block, bound),
            None => true,
        },
    decreases tokens.len() - i, 1nat,
{
    if i < tokens.len() {
        match category_level(tokens, i) {
            Some((level, content)) => {
                lemma_asterisk_run_bounds(tokens, i);
                if !(bound is Some && bound->0 >= level) {
                    lemma_line_end_bounds(tokens, content);
                    lemma_blocks_from_shaped(
                        tokens,
                        doc,
                        line_end(tokens, content),
                        Some(level),
                    );
                }
            },
            None => {},
        }
    }
}

/// Every run of blocks that the parser takes is in outline shape.
pub proof fn lemma_blocks_from_shaped(
    tokens: Seq<Lexeme>,
    doc: Seq<char>,
    i: int,
    bound: Option<nat>,
)
    requires
        0 <= i <= tokens.len(),
    ensures
        outline_shaped(blocks_from(tokens, doc, i, bound).0, bound),
    decreases tokens.len() - i, 2nat,
{
    lemma_next_block_advances(tokens, doc, i, bound);
    lemma_next_block_shaped(tokens, doc, i, bound);
    match next_block(tokens, doc, i, bound) {
        Some((block, next)) => {
            lemma_blocks_from_shaped(tokens, doc, next, bound);
            let rest = blocks_from(tokens, doc, next, bound).0;
            let all = blocks_from(tokens, doc, i, bound).0;
            assert(all == seq![block] + rest);
            if block is Category {
                let (level, content) = category_level(tokens, i)->0;
                lemma_asterisk_run_bounds(tokens, i);
                lemma_category_block_stops(tokens, doc, content, level);
                lemma_blocks_from_capped(tokens, doc, next, bound, level);
            }
            assert forall|j: int| 0 <= j < all.len() implies block_shaped(
                #[trigger] all[j],
                bound,
            ) by {
                if j > 0 {
                    assert(all[j] == rest[j - 1]);
                }
            }
            assert forall|j: int, k: int|
                0 <= j < k < all.len() && (#[trigger] all[j]) is Category implies (
            #[trigger] all[k]) is Category && level_of(all[k]) <= level_of(all[j]) by {
                assert(all[k] == rest[k - 1]);
                if j > 0 {
                    assert(all[j] == rest[j - 1]);
                }
            }
        },
        None => {},
    }
}

/// Parsed documents are in outline shape: every category lies deeper than
/// the category that holds it, body lines come before the first category
/// among their siblings, and from one category to a later sibling the
/// level never grows.
pub proof fn lemma_parse_outline_shaped(doc: Seq<char>)
    ensures
        outline_shaped(parse_document(doc), None),
{
    lemma_blocks_from_shaped(super::lexer::lex(doc), doc, 0, None);
}

/// In an outline-shaped sequence, a category that is a child of another
/// lies strictly deeper than it.
pub proof fn lemma_child_level_exceeds_parent(
    blocks: Seq<BlockView>,
    bound: Option<nat>,
    i: int,
    j: int,
)
    requires
        outline_shaped(blocks, bound),
        0 <= i < blocks.len(),
        blocks[i] is Category,
        0 <= j < blocks[i]->Category_0.children.len(),
        blocks[i]->Category_0.children[j] is Category,
    ensures
        level_of(blocks[i]->Category_0.children[j]) > level_of(blocks[i]),
        outline_shaped(blocks[i]->Category_0.children, Some(level_of(blocks[i]))),
{
    assert(block_shaped(blocks[i], bound));
    let children = blocks[i]->Category_0.children;
    assert(block_shaped(children[j], Some(level_of(blocks[i]))));
}

/// In an outline-shaped sequence, a later sibling category is no deeper
/// than an earlier one; so two sibling categories are at the same level
/// unless the later one is the shallower.
pub proof fn lemma_sibling_levels(blocks: Seq<BlockView>, bound: Option<nat>, i: int, j: int)
    requires
        outline_shaped(blocks, bound),
        0 <= i < j < blocks.len(),
        blocks[i] is Category,
        blocks[j] is Category,
    ensures
        level_of(blocks[j]) <= level_of(blocks[i]),
        level_of(blocks[i]) <= level_of(blocks[j]) ==> level_of(blocks[i]) == level_of(blocks[j]),
{
}

} // verus!
