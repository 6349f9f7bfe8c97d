pub mod extraction;
pub mod round_trip;

pub use extraction::{DbBlockId, DbBlockMatrix, DbBlockMatrixRow, TreeError};
