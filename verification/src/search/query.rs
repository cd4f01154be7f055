//! A search query: the words the user typed and the terms they give.
use vstd::prelude::*;

use crate::ingest::tokenizer::{tokens, SimpleTokenizer, Tokenizer};
use crate::text::{join, join_strings, sorted_unique, strictly_sorted, clone_strings};

verus! {

#[derive(Debug, Clone)]
pub struct Query {
    /// The words of the query joined by single spaces.
    pub raw: String,
    /// The distinct terms of `raw`, in increasing order.
    pub terms: Vec<String>,
    /// The words of the query as they were given.
    pub keywords: Vec<String>,
}

impl Query {
    pub fn new(parts: &[String]) -> (r: Self)
        ensures
            r.raw@ == join(parts.deep_view(), " "@),
            strictly_sorted(r.terms.deep_view()),
            r.terms.deep_view().to_set() == tokens(r.raw@).to_set(),
            r.keywords.deep_view() == parts.deep_view(),
    {
        let raw = join_strings(parts, " ");
        let tokenizer = SimpleTokenizer;
        let all = tokenizer.tokenize(raw.as_str());
        let terms = sorted_unique(&all);
        let keywords = clone_strings(parts);
        Query { raw, terms, keywords }
    }
}

} // verus!
