//! The block tree: categories (headlines), rich text (one body line) and
//! text, with the mathematical view that contracts speak of.

use crate::matching::captures::{CaptureMap, Captures};
use vstd::prelude::*;

verus! {

/// A node of the document tree.
#[derive(Debug)]
pub enum Block {
    Category(CategoryBlock),
    RichText(RichTextBlock),
    Text(TextBlock),
}

/// A headline with its nesting level and the blocks under it.
#[derive(Debug)]
pub struct CategoryBlock {
    /// The identifier in the store; absent until the block is stored.
    pub id: Option<i64>,
    /// The headline's text, without its leading markers.
    pub name: String,
    /// The number of leading markers.
    pub level: usize,
    /// The blocks under the headline, in document order.
    pub children: Vec<Block>,
    /// The table indices of the matchers that matched this block.
    pub matches: Vec<usize>,
    /// The captures of each successful match, in the order of `matches`.
    pub captures: Vec<CaptureMap>,
}

/// One body line: a wrapper around text blocks.
#[derive(Debug)]
pub struct RichTextBlock {
    pub children: Vec<Block>,
}

/// The verbatim content of one line that is no headline.
#[derive(Debug)]
pub struct TextBlock {
    pub content: String,
}

/// The mathematical value of a [`Block`].
pub enum BlockView {
    Category(CategoryView),
    RichText(Seq<BlockView>),
    Text(Seq<char>),
}

/// The mathematical value of a [`CategoryBlock`].
pub struct CategoryView {
    pub id: Option<i64>,
    pub name: Seq<char>,
    pub level: nat,
    pub children: Seq<BlockView>,
    pub matches: Seq<usize>,
    pub captures: Seq<Captures>,
}

/// The value of `b`.
pub open spec fn block_view(b: Block) -> BlockView
    decreases b,
{
    match b {
        Block::Category(c) => BlockView::Category(category_view(c)),
        Block::RichText(r) => BlockView::RichText(views(r.children@)),
        Block::Text(t) => BlockView::Text(t.content@),
    }
}

/// The value of `c`.
pub open spec fn category_view(c: CategoryBlock) -> CategoryView
    decreases c,
{
    CategoryView {
        id: c.id,
        name: c.name@,
        level: c.level as nat,
        children: views(c.children@),
        matches: c.matches@,
        captures: c.captures@.map_values(|m: CaptureMap| m@),
    }
}

/// The values of the blocks of `s`, in order.
pub open spec fn views(s: Seq<Block>) -> Seq<BlockView>
    decreases s,
{
    Seq::new(
        s.len(),
        |i: int|
            if 0 <= i < s.len() {
                block_view(s[i])
            } else {
                BlockView::Text(Seq::empty())
            },
    )
}

impl View for Block {
    type V = BlockView;

    open spec fn view(&self) -> BlockView {
        block_view(*self)
    }
}

impl View for CategoryBlock {
    type V = CategoryView;

    open spec fn view(&self) -> CategoryView {
        category_view(*self)
    }
}

impl View for RichTextBlock {
    type V = Seq<BlockView>;

    open spec fn view(&self) -> Seq<BlockView> {
        views(self.children@)
    }
}

impl View for TextBlock {
    type V = Seq<char>;

    open spec fn view(&self) -> Seq<char> {
        self.content@
    }
}

/// The values of a sequence with one more block are the values of the
/// sequence with the value of that block.
pub proof fn lemma_views_push(s: Seq<Block>, b: Block)
    ensures
        views(s.push(b)) == views(s).push(b@),
{
    assert(views(s.push(b)) =~= views(s).push(b@));
}

pub proof fn lemma_views_empty()
    ensures
        views(Seq::<Block>::empty()) == Seq::<BlockView>::empty(),
{
    assert(views(Seq::<Block>::empty()) =~= Seq::<BlockView>::empty());
}

impl Clone for CategoryBlock {
    /// A copy of the headline alone: same identifier, name and level, with
    /// no children, matches or captures.
    fn clone(&self) -> (c: CategoryBlock)
        ensures
            c@ == (CategoryView {
                children: Seq::empty(),
                matches: Seq::empty(),
                captures: Seq::empty(),
                ..self@
            }),
    {
        let c = CategoryBlock {
            id: self.id,
            name: self.name.clone(),
            level: self.level,
            children: Vec::new(),
            matches: Vec::new(),
            captures: Vec::new(),
        };
        proof {
            lemma_views_empty();
            assert(c.captures@.map_values(|m: CaptureMap| m@) =~= Seq::<Captures>::empty());
        }
        c
    }
}

impl Clone for RichTextBlock {
    /// A wrapper without children.
    fn clone(&self) -> (r: RichTextBlock)
        ensures
            r@ == Seq::<BlockView>::empty(),
    {
        let r = RichTextBlock { children: Vec::new() };
        proof {
            lemma_views_empty();
        }
        r
    }
}

impl Clone for TextBlock {
    /// A text block with the same content.
    fn clone(&self) -> (t: TextBlock)
        ensures
            t@ == self@,
    {
        TextBlock { content: self.content.clone() }
    }
}

} // verus!
