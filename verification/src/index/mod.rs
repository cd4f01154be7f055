pub mod inverted;
pub mod json;
pub mod storage;

pub use inverted::{InvertedIndex, TermStats};
