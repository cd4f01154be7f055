pub mod highlight;
pub mod query;
pub mod ranker;

pub use highlight::highlight_with_ansi;
pub use query::Query;
pub use ranker::{SearchEngine, SearchHit};
