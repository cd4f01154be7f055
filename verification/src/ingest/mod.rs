pub mod parser;
pub mod scanner;
pub mod tokenizer;

pub use parser::MarkdownParser;
pub use tokenizer::{SimpleTokenizer, Tokenizer};
