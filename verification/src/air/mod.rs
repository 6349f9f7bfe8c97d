pub mod block;
pub mod db_io;
pub mod write_plan;

pub use block::{Block, BlockView, CategoryBlock, CategoryView, RichTextBlock, TextBlock};
pub use db_io::{DbBlock, DbCategoryBlock, DbRichTextBlock, DbTextBlock, DeleteError};
pub use write_plan::{PlannedRow, RowRef, WriteError};
