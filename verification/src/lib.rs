pub mod cli;
pub mod error;
pub mod index;
pub mod ingest;
pub mod model;
pub mod output;
pub mod search;
pub mod text;
pub mod tui;
