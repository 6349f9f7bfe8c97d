//! The rows of the relational layout of a block tree, and the write plan
//! that lays a tree out as rows in the order in which they are written.
//!
//! A store assigns identifiers as rows are written, and a child's row
//! refers to its parent's identifier. A write plan therefore names a
//! parent either by an identifier that is already known or by the step of
//! the plan at which the parent's row is written.

use super::block::{
    lemma_views_empty, BlockView, CategoryBlock, CategoryView, RichTextBlock,
    TextBlock,
};
use crate::matching::captures::{CaptureMap, Captures};
use vstd::prelude::*;

verus! {

/// A row of one of the three tables.
#[derive(Debug)]
pub enum DbBlock {
    Category(DbCategoryBlock),
    RichText(DbRichTextBlock),
    Text(DbTextBlock),
}

/// A row of the table of categories.
#[derive(Debug)]
pub struct DbCategoryBlock {
    pub id: Option<i64>,
    pub name: String,
    pub parent_category_id: Option<i64>,
}

/// A row of the table of rich text blocks.
#[derive(Debug)]
pub struct DbRichTextBlock {
    pub id: Option<i64>,
    pub parent_category_id: Option<i64>,
}

/// A row of the table of text blocks. Its parent is a category or a rich
/// text block, never both.
#[derive(Debug)]
pub struct DbTextBlock {
    pub id: Option<i64>,
    pub content: String,
    pub parent_category_id: Option<i64>,
    pub parent_rich_text_block_id: Option<i64>,
}

/// The mathematical value of a row.
pub enum RowView {
    Category { id: Option<i64>, name: Seq<char>, parent_category_id: Option<i64> },
    RichText { id: Option<i64>, parent_category_id: Option<i64> },
    Text {
        id: Option<i64>,
        content: Seq<char>,
        parent_category_id: Option<i64>,
        parent_rich_text_block_id: Option<i64>,
    },
}

impl View for DbCategoryBlock {
    type V = RowView;

    open spec fn view(&self) -> RowView {
        RowView::Category {
            id: self.id,
            name: self.name@,
            parent_category_id: self.parent_category_id,
        }
    }
}

impl View for DbRichTextBlock {
    type V = RowView;

    open spec fn view(&self) -> RowView {
        RowView::RichText { id: self.id, parent_category_id: self.parent_category_id }
    }
}

impl View for DbTextBlock {
    type V = RowView;

    open spec fn view(&self) -> RowView {
        RowView::Text {
            id: self.id,
            content: self.content@,
            parent_category_id: self.parent_category_id,
            parent_rich_text_block_id: self.parent_rich_text_block_id,
        }
    }
}

impl View for DbBlock {
    type V = RowView;

    open spec fn view(&self) -> RowView {
        match self {
            DbBlock::Category(row) => row@,
            DbBlock::RichText(row) => row@,
            DbBlock::Text(row) => row@,
        }
    }
}

/// The values of a sequence of rows.
pub open spec fn row_views(rows: Seq<DbBlock>) -> Seq<RowView> {
    rows.map_values(|row: DbBlock| row@)
}

/// A row cannot be deleted: it has no identifier.
#[derive(Debug, Clone, Copy, PartialEq, Eq, Structural)]
pub enum DeleteError {
    CategoryWithoutId,
    RichTextWithoutId,
    TextWithoutId,
}

/// The identifier of a row after it was written: the one it was given, or
/// else the one that the store assigned.
pub open spec fn written_id_of(given: Option<i64>, assigned: i64) -> i64 {
    match given {
        Some(id) => id,
        None => assigned,
    }
}

impl DbCategoryBlock {
    /// A row with placeholder values, to be filled in from the store.
    pub fn zero() -> (row: Self)
        ensures
            row@ == (RowView::Category {
                id: Some(0),
                name: Seq::empty(),
                parent_category_id: Some(0),
            }),
    {
        DbCategoryBlock { id: Some(0), name: String::new(), parent_category_id: Some(0) }
    }

    /// The identifier under which the row is deleted; a row without
    /// identifier cannot be deleted.
    pub fn delete_id(&self) -> (r: Result<i64, DeleteError>)
        ensures
            match r {
                Ok(id) => self.id == Some(id),
                Err(e) => self.id is None && e == DeleteError::CategoryWithoutId,
            },
    {
        match self.id {
            Some(id) => Ok(id),
            None => Err(DeleteError::CategoryWithoutId),
        }
    }

    /// The identifier of the row after it was written, where
    /// `last_insert_rowid` is the identifier that the store assigned.
    pub fn written_id(&self, last_insert_rowid: i64) -> (id: i64)
        ensures
            id == written_id_of(self.id, last_insert_rowid),
    {
        match self.id {
            None => last_insert_rowid,
            Some(id) => id,
        }
    }
}

impl DbRichTextBlock {
    /// A row with placeholder values, to be filled in from the store.
    pub fn zero() -> (row: Self)
        ensures
            row@ == (RowView::RichText { id: Some(0), parent_category_id: Some(0) }),
    {
        DbRichTextBlock { id: Some(0), parent_category_id: Some(0) }
    }

    /// The identifier under which the row is deleted; a row without
    /// identifier cannot be deleted.
    pub fn delete_id(&self) -> (r: Result<i64, DeleteError>)
        ensures
            match r {
                Ok(id) => self.id == Some(id),
                Err(e) => self.id is None && e == DeleteError::RichTextWithoutId,
            },
    {
        match self.id {
            Some(id) => Ok(id),
            None => Err(DeleteError::RichTextWithoutId),
        }
    }

    /// The identifier of the row after it was written, where
    /// `last_insert_rowid` is the identifier that the store assigned.
    pub fn written_id(&self, last_insert_rowid: i64) -> (id: i64)
        ensures
            id == written_id_of(self.id, last_insert_rowid),
    {
        match self.id {
            None => last_insert_rowid,
            Some(id) => id,
        }
    }
}

impl DbTextBlock {
    /// A row with placeholder values, to be filled in from the store.
    pub fn zero() -> (row: Self)
        ensures
            row@ == (RowView::Text {
                id: Some(0),
                content: Seq::empty(),
                parent_category_id: Some(0),
                parent_rich_text_block_id: Some(0),
            }),
    {
        DbTextBlock {
            id: Some(0),
            content: String::new(),
            parent_category_id: Some(0),
            parent_rich_text_block_id: Some(0),
        }
    }

    /// The identifier under which the row is deleted; a row without
    /// identifier cannot be deleted.
    pub fn delete_id(&self) -> (r: Result<i64, DeleteError>)
        ensures
            match r {
                Ok(id) => self.id == Some(id),
                Err(e) => self.id is None && e == DeleteError::TextWithoutId,
            },
    {
        match self.id {
            Some(id) => Ok(id),
            None => Err(DeleteError::TextWithoutId),
        }
    }

    /// The identifier of the row after it was written, where
    /// `last_insert_rowid` is the identifier that the store assigned.
    pub fn written_id(&self, last_insert_rowid: i64) -> (id: i64)
        ensures
            id == written_id_of(self.id, last_insert_rowid),
    {
        match self.id {
            None => last_insert_rowid,
            Some(id) => id,
        }
    }
}

impl Clone for DbCategoryBlock {
    fn clone(&self) -> (row: Self)
        ensures
            row@ == self@,
    {
        DbCategoryBlock {
            id: self.id,
            name: self.name.clone(),
            parent_category_id: self.parent_category_id,
        }
    }
}

impl Clone for DbRichTextBlock {
    fn clone(&self) -> (row: Self)
        ensures
            row@ == self@,
    {
        DbRichTextBlock { id: self.id, parent_category_id: self.parent_category_id }
    }
}

impl Clone for DbTextBlock {
    fn clone(&self) -> (row: Self)
        ensures
            row@ == self@,
    {
        DbTextBlock {
            id: self.id,
            content: self.content.clone(),
            parent_category_id: self.parent_category_id,
            parent_rich_text_block_id: self.parent_rich_text_block_id,
        }
    }
}

/// A category without children, matches or captures.
pub open spec fn bare_category(id: Option<i64>, name: Seq<char>, level: nat) -> CategoryView {
    CategoryView {
        id,
        name,
        level,
        children: Seq::empty(),
        matches: Seq::empty(),
        captures: Seq::empty(),
    }
}

impl CategoryBlock {
    /// The row of this category under the given parent.
    pub fn as_db_type(&self, parent_category_id: Option<i64>) -> (row: DbCategoryBlock)
        ensures
            row@ == (RowView::Category { id: self.id, name: self.name@, parent_category_id }),
    {
        DbCategoryBlock { id: self.id, name: self.name.clone(), parent_category_id }
    }

    /// The category of a row, at the given level, still without children.
    pub fn from_db_type(db_block: &DbCategoryBlock, level: usize) -> (c: Self)
        ensures
            c@ == bare_category(db_block.id, db_block.name@, level as nat),
    {
        let c = CategoryBlock {
            id: db_block.id,
            name: db_block.name.clone(),
            level,
            children: Vec::new(),
            matches: Vec::new(),
            captures: Vec::new(),
        };
        proof {
            lemma_views_empty();
            assert(c.captures@.map_values(|m: CaptureMap| m@) =~= Seq::<Captures>::empty());
        }
        c
    }
}

impl RichTextBlock {
    /// The row of this block under the given identifier and parent.
    pub fn as_db_type(&self, id: Option<i64>, parent_category_id: Option<i64>) -> (row:
        DbRichTextBlock)
        ensures
            row@ == (RowView::RichText { id, parent_category_id }),
    {
        DbRichTextBlock { id, parent_category_id }
    }

    /// The rich text block of a row, still without children.
    pub fn from_db_type(_db_block: &DbRichTextBlock) -> (r: Self)
        ensures
            r@ == Seq::<BlockView>::empty(),
    {
        let r = RichTextBlock { children: Vec::new() };
        proof {
            lemma_views_empty();
        }
        r
    }
}

impl TextBlock {
    /// The row of this block under the given identifier and parents.
    pub fn as_db_type(
        &self,
        id: Option<i64>,
        parent_category_id: Option<i64>,
        parent_rich_text_block_id: Option<i64>,
    ) -> (row: DbTextBlock)
        ensures
            row@ == (RowView::Text {
                id,
                content: self.content@,
                parent_category_id,
                parent_rich_text_block_id,
            }),
    {
        DbTextBlock {
            id,
            content: self.content.clone(),
            parent_category_id,
            parent_rich_text_block_id,
        }
    }

    /// The text block of a row.
    pub fn from_db_type(db_block: &DbTextBlock) -> (t: Self)
        ensures
            t@ == db_block.content@,
    {
        TextBlock { content: db_block.content.clone() }
    }
}

} // verus!
