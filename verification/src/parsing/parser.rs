//! The parser: tokens to the block tree, by level-aware descent.
//!
//! A line that begins with one or more `*` and one space is a headline
//! whose level is the number of `*`; every other line is body text. A
//! headline takes as children the lines that follow it, up to the next
//! headline of its own level or a shallower one.

use super::lexer::{lemma_lex_from, lex, tiles, Lexeme, TokenType, Tokenizer};
use crate::air::block::{
    lemma_views_empty, lemma_views_push, views, Block, BlockView, CategoryBlock, CategoryView,
    RichTextBlock, TextBlock,
};
use super::shape::{lemma_parse_outline_shaped, outline_shaped};
use crate::rendering::render_all;
use crate::rendering::round_trip::lemma_render_inverts_parse;
use crate::matching::captures::{CaptureMap, Captures};
use crate::text::{string_of, to_chars};
use vstd::prelude::*;

verus! {

/// The position in the text at which token `i` begins; the end of the
/// text for an index past the last token.
pub open spec fn token_start(tokens: Seq<Lexeme>, doc: Seq<char>, i: int) -> int {
    if 0 <= i < tokens.len() {
        tokens[i].lexeme_start as int
    } else {
        doc.len() as int
    }
}

/// The number of consecutive `*` tokens from index `i` on.
pub open spec fn asterisk_run(tokens: Seq<Lexeme>, i: int) -> nat
    decreases tokens.len() - i,
{
    if 0 <= i < tokens.len() && tokens[i].tok_type == TokenType::Asterisk {
        1 + asterisk_run(tokens, i + 1)
    } else {
        0
    }
}

/// If a headline begins at token `i`: its level and the index of the first
/// token after its marker. A headline's marker is a run of `*` tokens
/// closed by one space token; a run that meets any other token, or the end
/// of the input, marks no headline.
pub open spec fn category_level(tokens: Seq<Lexeme>, i: int) -> Option<(nat, int)> {
    let n = asterisk_run(tokens, i);
    if n > 0 && i + n < tokens.len() && tokens[i + n].tok_type == TokenType::Space {
        Some((n, i + n + 1))
    } else {
        None
    }
}

/// The index just past the first line break at or after token `i`, or the
/// number of tokens if no line break follows.
pub open spec fn line_end(tokens: Seq<Lexeme>, i: int) -> int
    decreases tokens.len() - i,
{
    if i < 0 || i >= tokens.len() {
        tokens.len() as int
    } else if tokens[i].tok_type == TokenType::LineBreak {
        i + 1
    } else {
        line_end(tokens, i + 1)
    }
}

/// The text from token `i` to the end of its line, line break included.
pub open spec fn line_text(tokens: Seq<Lexeme>, doc: Seq<char>, i: int) -> Seq<char> {
    doc.subrange(token_start(tokens, doc, i), token_start(tokens, doc, line_end(tokens, i)))
}

pub proof fn lemma_line_end_bounds(tokens: Seq<Lexeme>, i: int)
    requires
        0 <= i,
    ensures
        i < tokens.len() ==> i < line_end(tokens, i) <= tokens.len(),
        i >= tokens.len() ==> line_end(tokens, i) == tokens.len(),
    decreases tokens.len() - i,
{
    if i < tokens.len() && tokens[i].tok_type != TokenType::LineBreak {
        lemma_line_end_bounds(tokens, i + 1);
    }
}

pub proof fn lemma_asterisk_run_bounds(tokens: Seq<Lexeme>, i: int)
    requires
        0 <= i,
    ensures
        i + asterisk_run(tokens, i) <= tokens.len() || asterisk_run(tokens, i) == 0,
        forall|j: int|
            i <= j < i + asterisk_run(tokens, i) ==> (#[trigger] tokens[j]).tok_type
                == TokenType::Asterisk,
        i + asterisk_run(tokens, i) < tokens.len() ==> tokens[i + asterisk_run(
            tokens,
            i,
        )].tok_type != TokenType::Asterisk,
    decreases tokens.len() - i,
{
    if i < tokens.len() && tokens[i].tok_type == TokenType::Asterisk {
        lemma_asterisk_run_bounds(tokens, i + 1);
    }
}

/// The headline whose content begins at token `i`: its name is the rest of
/// the line, its children are the blocks that follow under `level`.
pub open spec fn category_block(
    tokens: Seq<Lexeme>,
    doc: Seq<char>,
    i: int,
    level: Option<nat>,
) -> (CategoryView, int)
    decreases tokens.len() - i, 3nat,
{
    if i < 0 || i > tokens.len() {
        (empty_category(), i)
    } else {
        proof {
            lemma_line_end_bounds(tokens, i);
        }
        let e = line_end(tokens, i);
        let (children, end) = blocks_from(tokens, doc, e, level);
        (
            CategoryView {
                id: None,
                name: line_text(tokens, doc, i),
                level: match level {
                    Some(l) => l,
                    None => 0,
                },
                children,
                matches: Seq::empty(),
                captures: Seq::empty(),
            },
            end,
        )
    }
}

/// A headline without name or children, at level 0.
pub open spec fn empty_category() -> CategoryView {
    CategoryView {
        id: None,
        name: Seq::empty(),
        level: 0,
        children: Seq::empty(),
        matches: Seq::empty(),
        captures: Seq::empty(),
    }
}

/// The block that begins at token `i` and the index of the token after it,
/// or `None` where no block is taken: at the end of the input, and at a
/// headline whose level does not exceed `bound`, the level of the
/// enclosing headline.
pub open spec fn next_block(
    tokens: Seq<Lexeme>,
    doc: Seq<char>,
    i: int,
    bound: Option<nat>,
) -> Option<(BlockView, int)>
    decreases tokens.len() - i, 1nat,
{
    if i < 0 || i >= tokens.len() {
        None
    } else {
        match category_level(tokens, i) {
            Some((level, content)) => {
                if bound is Some && bound->0 >= level {
                    None
                } else {
                    let (category, end) = category_block(tokens, doc, content, Some(level));
                    Some((BlockView::Category(category), end))
                }
            },
            None => Some(
                (
                    BlockView::RichText(seq![BlockView::Text(line_text(tokens, doc, i))]),
                    line_end(tokens, i),
                ),
            ),
        }
    }
}

/// The blocks taken one after another from token `i` on under `bound`,
/// and the index of the first token that was not taken.
pub open spec fn blocks_from(
    tokens: Seq<Lexeme>,
    doc: Seq<char>,
    i: int,
    bound: Option<nat>,
) -> (Seq<BlockView>, int)
    decreases tokens.len() - i, 2nat,
{
    match next_block(tokens, doc, i, bound) {
        Some((block, next)) if i < next <= tokens.len() => {
            let (rest, end) = blocks_from(tokens, doc, next, bound);
            (seq![block] + rest, end)
        },
        _ => (Seq::empty(), i),
    }
}

/// The top-level blocks of a document.
pub open spec fn parse_document(doc: Seq<char>) -> Seq<BlockView> {
    blocks_from(lex(doc), doc, 0, None).0
}

/// A level bound as a natural number.
pub open spec fn bound_of(level: Option<usize>) -> Option<nat> {
    match level {
        Some(l) => Some(l as nat),
        None => None,
    }
}

/// A parser over the tokens of one document.
pub struct Parser {
    tokens: Vec<Lexeme>,
    document: Vec<char>,
}

impl Parser {
    #[verifier::type_invariant]
    spec fn well_formed(self) -> bool {
        self.tokens@ == lex(self.document@)
    }

    /// The text of the document.
    pub closed spec fn document(self) -> Seq<char> {
        self.document@
    }

    /// The tokens of the document.
    pub closed spec fn tokens(self) -> Seq<Lexeme> {
        self.tokens@
    }

    /// A parser for `document`.
    pub fn new(document: &str) -> (p: Parser)
        ensures
            p.document() == document@,
            p.tokens() == lex(document@),
    {
        let tokens = Tokenizer::new(document).get_lexemes();
        Parser { tokens, document: to_chars(document) }
    }

    /// The tokens tile the document.
    proof fn lemma_tokens_tile(self)
        requires
            self.well_formed(),
        ensures
            tiles(self.tokens@, 0, self.document@.len() as int),
            forall|i: int, j: int|
                0 <= i <= j ==> 0 <= #[trigger] token_start(self.tokens@, self.document@, i)
                    <= #[trigger] token_start(self.tokens@, self.document@, j)
                    <= self.document@.len(),
    {
        assert(self.document.len() == self.document@.len());
        lemma_lex_from(self.document@, 0);
        assert forall|i: int, j: int| 0 <= i <= j implies 0 <= #[trigger] token_start(
            self.tokens@,
            self.document@,
            i,
        ) <= #[trigger] token_start(self.tokens@, self.document@, j)
            <= self.document@.len() by {
            lemma_token_starts_ordered(self.tokens@, self.document@, i, j);
        }
    }

    /// The position at which token `index` begins, or the end of the text.
    fn token_position(&self, index: usize) -> (p: usize)
        ensures
            p == token_start(self.tokens(), self.document(), index as int),
    {
        if index < self.tokens.len() {
            self.tokens[index].lexeme_start
        } else {
            self.document.len()
        }
    }

    /// The index just past the line that token `index` is on.
    fn end_of_line(&self, index: usize) -> (e: usize)
        ensures
            e == line_end(self.tokens(), index as int),
            index < self.tokens().len() ==> index < e,
            e <= self.tokens().len(),
    {
        let n: usize = self.tokens.len();
        let mut e: usize = index;
        proof {
            lemma_line_end_bounds(self.tokens@, index as int);
        }
        while e < n
            invariant
                n == self.tokens@.len(),
                index <= e,
                line_end(self.tokens@, e as int) == line_end(self.tokens@, index as int),
            decreases n - e,
        {
            match self.tokens[e].tok_type {
                TokenType::LineBreak => {
                    return e + 1;
                },
                _ => {},
            }
            e = e + 1;
        }
        n
    }

    /// The text from token `index` to the end of its line, as a string.
    fn text_of_line(&self, index: usize, end: usize) -> (s: String)
        requires
            end == line_end(self.tokens(), index as int),
        ensures
            s@ == line_text(self.tokens(), self.document(), index as int),
    {
        proof {
            use_type_invariant(self);
            self.lemma_tokens_tile();
            lemma_line_end_bounds(self.tokens@, index as int);
        }
        let from: usize = self.token_position(index);
        let to: usize = self.token_position(end);
        let s = string_of(&self.document, from, to);
        proof {
            assert(from == token_start(self.tokens@, self.document@, index as int));
            assert(to == token_start(self.tokens@, self.document@, end as int));
            assert(from <= to <= self.document@.len());
            assert(s@ =~= self.document@.subrange(from as int, to as int));
        }
        s
    }

    /// Whether a headline begins at `token_index`; if so, its level and
    /// the index of the first token of its content.
    fn determine_category_level(&self, token_index: usize) -> (r: Option<(usize, usize)>)
        requires
            token_index < self.tokens().len(),
        ensures
            match r {
                Some((level, index)) => category_level(self.tokens(), token_index as int) == Some(
                    (level as nat, index as int),
                ),
                None => category_level(self.tokens(), token_index as int) is None,
            },
    {
        let n: usize = self.tokens.len();
        let mut headline_level: usize = 0;
        let mut index: usize = token_index;
        proof {
            lemma_asterisk_run_bounds(self.tokens@, token_index as int);
        }
        while index < n
            invariant
                n == self.tokens@.len(),
                token_index <= index <= n,
                headline_level == index - token_index,
                asterisk_run(self.tokens@, token_index as int) == headline_level + asterisk_run(
                    self.tokens@,
                    index as int,
                ),
            decreases n - index,
        {
            match self.tokens[index].tok_type {
                TokenType::Asterisk => {
                    headline_level = headline_level + 1;
                },
                TokenType::Space => {
                    if headline_level == 0 {
                        return None;
                    }
                    return Some((headline_level, index + 1));
                },
                _ => {
                    return None;
                },
            }
            index = index + 1;
        }
        None
    }

    /// The headline whose content begins at `token_index`, with the blocks
    /// under it, and the index of the first token after them.
    fn parse_category_block(&self, token_index: usize, level: Option<usize>) -> (r: Option<
        (CategoryBlock, usize),
    >)
        requires
            token_index <= self.tokens().len(),
        ensures
            match r {
                Some((category, index)) => {
                    &&& (category@, index as int) == category_block(
                        self.tokens(),
                        self.document(),
                        token_index as int,
                        bound_of(level),
                    )
                    &&& token_index <= index <= self.tokens().len()
                },
                None => false,
            },
        decreases self.tokens().len() - token_index, 3nat,
    {
        let start: usize = self.end_of_line(token_index);
        let name = self.text_of_line(token_index, start);
        let mut children: Vec<Block> = Vec::new();
        let mut index: usize = start;
        proof {
            lemma_views_empty();
        }
        loop
            invariant
                token_index <= start <= index <= self.tokens().len(),
                blocks_from(self.tokens(), self.document(), start as int, bound_of(level)).0
                    == views(children@) + blocks_from(
                    self.tokens(),
                    self.document(),
                    index as int,
                    bound_of(level),
                ).0,
                blocks_from(self.tokens(), self.document(), start as int, bound_of(level)).1
                    == blocks_from(self.tokens(), self.document(), index as int, bound_of(level)).1,
            ensures
                token_index <= index <= self.tokens().len(),
                blocks_from(self.tokens(), self.document(), start as int, bound_of(level)) == (
                    views(children@),
                    index as int,
                ),
            decreases self.tokens().len() - index,
        {
            match self.parse_next_block(index, level) {
                None => {
                    proof {
                        assert(views(children@) + Seq::<BlockView>::empty() =~= views(children@));
                    }
                    break ;
                },
                Some((new_block, new_index)) => {
                    proof {
                        lemma_views_push(children@, new_block);
                        let rest = blocks_from(
                            self.tokens(),
                            self.document(),
                            new_index as int,
                            bound_of(level),
                        ).0;
                        assert(views(children@).push(new_block@) + rest =~= views(children@) + (
                            seq![new_block@] + rest));
                    }
                    children.push(new_block);
                    index = new_index;
                },
            }
        }
        let block = CategoryBlock {
            id: None,
            level: match level {
                Some(l) => l,
                None => 0,
            },
            name,
            children,
            matches: Vec::new(),
            captures: Vec::new(),
        };
        proof {
            assert(block.captures@.map_values(|m: CaptureMap| m@) =~= Seq::<Captures>::empty());
        }
        Some((block, index))
    }

    /// The body line that begins at `token_index`, and the index of the
    /// first token after it.
    fn parse_rich_text_block(&self, token_index: usize) -> (r: Option<(RichTextBlock, usize)>)
        requires
            token_index < self.tokens().len(),
        ensures
            match r {
                Some((rich_text, index)) => {
                    &&& rich_text@ == seq![
                        BlockView::Text(
                            line_text(self.tokens(), self.document(), token_index as int),
                        ),
                    ]
                    &&& index == line_end(self.tokens(), token_index as int)
                    &&& token_index < index <= self.tokens().len()
                },
                None => false,
            },
    {
        let index: usize = self.end_of_line(token_index);
        let content = self.text_of_line(token_index, index);
        let mut children: Vec<Block> = Vec::new();
        let text = Block::Text(TextBlock { content });
        proof {
            lemma_views_empty();
            lemma_views_push(children@, text);
            assert(Seq::<BlockView>::empty().push(text@) =~= seq![text@]);
        }
        children.push(text);
        Some((RichTextBlock { children }, index))
    }

    /// The block that begins at `token_index`, if one is taken there
    /// under the enclosing level, and the index of the token after it.
    fn parse_next_block(&self, token_index: usize, category_level: Option<usize>) -> (r: Option<
        (Block, usize),
    >)
        requires
            token_index <= self.tokens().len(),
        ensures
            match r {
                Some((block, index)) => {
                    &&& next_block(
                        self.tokens(),
                        self.document(),
                        token_index as int,
                        bound_of(category_level),
                    ) == Some((block@, index as int))
                    &&& token_index < index <= self.tokens().len()
                },
                None => next_block(
                    self.tokens(),
                    self.document(),
                    token_index as int,
                    bound_of(category_level),
                ) is None,
            },
        decreases self.tokens().len() - token_index, 1nat,
    {
        if token_index >= self.tokens.len() {
            return None;
        }
        match self.determine_category_level(token_index) {
            Some((level, index)) => {
                if let Some(current_category_level) = category_level {
                    if current_category_level >= level {
                        return None;
                    }
                }
                proof {
                    lemma_asterisk_run_bounds(self.tokens@, token_index as int);
                }
                match self.parse_category_block(index, Some(level)) {
                    Some((category, new_index)) => Some((Block::Category(category), new_index)),
                    None => None,
                }
            },
            None => {
                match self.parse_rich_text_block(token_index) {
                    Some((rich_text, new_index)) => Some((Block::RichText(rich_text), new_index)),
                    None => None,
                }
            },
        }
    }

    /// The top-level blocks of the document, in document order.
    pub fn parse(&self) -> (blocks: Vec<Block>)
        ensures
            views(blocks@) == parse_document(self.document()),
            outline_shaped(views(blocks@), None),
            render_all(views(blocks@)) == self.document(),
    {
        proof {
            use_type_invariant(self);
            lemma_views_empty();
            lemma_parse_outline_shaped(self.document());
            assert(self.document.len() == self.document@.len());
            lemma_render_inverts_parse(self.document());
        }
        let mut index: usize = 0;
        let mut blocks: Vec<Block> = Vec::new();
        loop
            invariant
                index <= self.tokens().len(),
                blocks_from(self.tokens(), self.document(), 0, None).0 == views(blocks@)
                    + blocks_from(self.tokens(), self.document(), index as int, None).0,
            ensures
                blocks_from(self.tokens(), self.document(), 0, None).0 == views(blocks@),
            decreases self.tokens().len() - index,
        {
            match self.parse_next_block(index, None) {
                None => {
                    proof {
                        assert(views(blocks@) + Seq::<BlockView>::empty() =~= views(blocks@));
                    }
                    break ;
                },
                Some((block, new_index)) => {
                    proof {
                        lemma_views_push(blocks@, block);
                        let rest = blocks_from(
                            self.tokens(),
                            self.document(),
                            new_index as int,
                            None,
                        ).0;
                        assert(views(blocks@).push(block@) + rest =~= views(blocks@) + (seq![
                            block@,
                        ] + rest));
                    }
                    blocks.push(block);
                    index = new_index;
                },
            }
        }
        blocks
    }
}

/// In a tiling token sequence each token ends where the next begins, or
/// at the end of the text if it is the last.
pub proof fn lemma_token_start_step(tokens: Seq<Lexeme>, doc: Seq<char>, i: int)
    requires
        tiles(tokens, 0, doc.len() as int),
        0 <= i < tokens.len(),
    ensures
        tokens[i].lexeme_end == token_start(tokens, doc, i + 1),
        token_start(tokens, doc, i) < token_start(tokens, doc, i + 1),
{
    assert(tokens[i].lexeme_start < tokens[i].lexeme_end);
    if i + 1 < tokens.len() {
        assert(tokens[i].lexeme_end == tokens[i + 1].lexeme_start);
    }
}

/// In a tiling token sequence every token begins within the text.
pub proof fn lemma_token_start_bound(tokens: Seq<Lexeme>, doc: Seq<char>, i: int)
    requires
        tiles(tokens, 0, doc.len() as int),
        0 <= i,
    ensures
        0 <= token_start(tokens, doc, i) <= doc.len(),
    decreases tokens.len() - i,
{
    if i < tokens.len() {
        lemma_token_start_step(tokens, doc, i);
        lemma_token_start_bound(tokens, doc, i + 1);
    }
}

/// In a tiling token sequence, a later token begins no earlier than an
/// earlier one, and all begin within the text.
pub proof fn lemma_token_starts_ordered(tokens: Seq<Lexeme>, doc: Seq<char>, i: int, j: int)
    requires
        tiles(tokens, 0, doc.len() as int),
        0 <= i <= j,
    ensures
        0 <= token_start(tokens, doc, i) <= token_start(tokens, doc, j) <= doc.len(),
        i < j && i < tokens.len() ==> token_start(tokens, doc, i) < token_start(tokens, doc, j),
    decreases j - i,
{
    lemma_token_start_bound(tokens, doc, i);
    if i < j {
        lemma_token_starts_ordered(tokens, doc, i + 1, j);
        if i < tokens.len() {
            lemma_token_start_step(tokens, doc, i);
        }
    }
}

} // verus!
