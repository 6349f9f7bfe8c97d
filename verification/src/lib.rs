//! Outline documents: lexing and parsing of headline/body markup into a
//! block tree, the row layout of that tree in a relational store and its
//! reconstruction from flat rows, and the fold engine that matches
//! declared shapes against the tree and synthesises new headlines.

pub mod air;
pub mod db;
pub mod matching;
pub mod parsing;
pub mod rendering;
pub mod text;
pub mod top_level;

pub use air::{
    Block, CategoryBlock, DbBlock, DbCategoryBlock, DbRichTextBlock, DbTextBlock, PlannedRow,
    RichTextBlock, RowRef, TextBlock, WriteError,
};
pub use db::{DbBlockId, DbBlockMatrix, DbBlockMatrixRow, TreeError};
pub use matching::{expand_folds, CaptureMap, Fold};
pub use parsing::Parser;
pub use rendering::render_to_org;
pub use top_level::RTopLevelCategory;
