pub mod captures;
pub mod expand;
pub mod fold;
pub mod value_matcher;

pub use captures::CaptureMap;
pub use expand::expand_folds;
pub use fold::{CategoryMatcher, Fold, FoldFrom, FoldInto};
pub use value_matcher::{get_position_of_substring, ValueMatcher};
