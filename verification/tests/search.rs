use md_knowsearch::index::InvertedIndex;
use md_knowsearch::ingest::MarkdownParser;
use md_knowsearch::model::{Document, Section};
use md_knowsearch::search::highlight::{highlight_with_ansi, highlight_with_marks, make_snippet};
use md_knowsearch::search::ranker::{best_section, display_matched_terms, phrase_hits, searchable_text};
use md_knowsearch::search::{Query, SearchEngine};

fn strings(items: &[&str]) -> Vec<String> {
    items.iter().map(|item| item.to_string()).collect()
}

#[test]
fn highlights_ascii_terms() {
    let highlighted = highlight_with_marks("Rust ownership model", &["ownership".to_string()]);
    assert!(highlighted.contains("<mark>ownership</mark>"));
}

#[test]
fn highlights_chinese_phrase_terms() {
    let highlighted = highlight_with_marks("Rust 所有权与借用复习", &["所有权".to_string()]);
    assert!(highlighted.contains("<mark>所有权</mark>"));
}

#[test]
fn creates_context_snippet() {
    let snippet = make_snippet("Rust has ownership and borrowing rules", &["ownership".to_string()], 8);
    assert!(snippet.contains("ownership"));
}

#[test]
fn end_to_end_search_returns_ranked_markdown_result() {
    let parser = MarkdownParser;
    let document = parser.parse(
        0,
        "notes/rust.md",
        "# Rust Ownership\n\nTags: #rust\n\n## Borrowing\nOwnership enables memory safety.\n".to_string(),
        0,
    );
    let index = InvertedIndex::build(vec![document]);
    let engine = SearchEngine::new(&index);
    let query = Query::new(&["ownership".to_string(), "rust".to_string()]);
    let results = engine.hits(&query);

    assert_eq!(results.len(), 1);
    assert_eq!(index.documents[results[0].doc_id].title, "Rust Ownership");
    assert!(!results[0].hits.is_empty());
    assert!(results[0].snippet.to_lowercase().contains("ownership"));
}

#[test]
fn highlight_matches_whole_ascii_words_only() {
    let terms = strings(&["own"]);
    assert_eq!(highlight_with_marks("own ownership", &terms), "<mark>own</mark> ownership");
    let terms = strings(&["rust"]);
    assert_eq!(highlight_with_marks("Rust, rust!", &terms), "<mark>Rust</mark>, <mark>rust</mark>!");
    assert_eq!(
        highlight_with_ansi("a rust b", &terms),
        "a \u{1b}[1;33mrust\u{1b}[0m b"
    );
}

#[test]
fn highlight_prefers_longer_terms_and_ignores_blank_ones() {
    let terms = strings(&["所有", "所有权", "  "]);
    assert_eq!(highlight_with_marks("学所有权", &terms), "学<mark>所有权</mark>");
    assert_eq!(highlight_with_marks("plain", &strings(&[" "])), "plain");
}

#[test]
fn snippet_cuts_around_first_match_with_ellipses() {
    let text = "aaaaaaaaaa ownership bbbbbbbbbb";
    assert_eq!(make_snippet(text, &strings(&["ownership"]), 3), "...aa ownership bb...");
    assert_eq!(make_snippet("short", &strings(&["none"]), 80), "short");
    assert_eq!(make_snippet("abcdef", &strings(&["zz"]), 2), "abcd");
}

#[test]
fn query_terms_are_sorted_and_distinct() {
    let query = Query::new(&strings(&["Rust", "rust", "Ownership"]));
    assert_eq!(query.raw, "Rust rust Ownership");
    assert_eq!(query.terms, strings(&["ownership", "rust"]));
    assert_eq!(query.keywords, strings(&["Rust", "rust", "Ownership"]));
}

fn note(id: usize, path: &str, title: &str, body: &str, sections: Vec<Section>) -> Document {
    Document {
        id,
        path: path.to_string(),
        file_name: path.to_string(),
        title: title.to_string(),
        headings: sections.iter().map(|s| s.heading.clone()).collect(),
        tags: Vec::new(),
        modified: 0,
        body: body.to_string(),
        sections,
    }
}

#[test]
fn search_finds_every_document_holding_a_term_in_order() {
    let documents = vec![
        note(0, "a.md", "Rust", "ownership", Vec::new()),
        note(1, "b.md", "Cooking", "pasta", Vec::new()),
        note(2, "c.md", "Notes", "Ownership rules", Vec::new()),
    ];
    let index = InvertedIndex::build(documents);
    let engine = SearchEngine::new(&index);
    let results = engine.hits(&Query::new(&strings(&["ownership"])));
    let ids: Vec<usize> = results.iter().map(|hit| hit.doc_id).collect();
    assert_eq!(ids, vec![0, 2]);
    assert_eq!(results[0].hits.len(), 1);
    assert_eq!(results[0].hits[0].term, "ownership");
    assert_eq!(results[0].hits[0].document_frequency, 2);
    assert_eq!(results[0].matched_terms, strings(&["ownership"]));
    assert!(engine.hits(&Query::new(&strings(&["!!"]))).is_empty());
    assert!(engine.hits(&Query::new(&strings(&["absent"]))).is_empty());
}

#[test]
fn best_section_takes_the_last_of_the_best() {
    let document = note(
        0,
        "a.md",
        "T",
        "",
        vec![
            Section { heading: "Rust".to_string(), level: 1, body: "x".to_string() },
            Section { heading: "Other".to_string(), level: 2, body: "rust rust rust rust".to_string() },
            Section { heading: "Tail".to_string(), level: 2, body: "nothing".to_string() },
        ],
    );
    assert_eq!(best_section(&document, &strings(&["rust"])).heading, "Other");
    assert_eq!(best_section(&document, &strings(&["zzz"])).heading, "Tail");
    let empty = note(0, "e.md", "E", "", Vec::new());
    let section = best_section(&empty, &strings(&["rust"]));
    assert_eq!(section.heading, "");
    assert_eq!(section.level, 0);
}

#[test]
fn matched_terms_show_keywords_found_in_the_text() {
    let document = note(0, "a.md", "Rust Ownership", "borrowing", Vec::new());
    let query = Query::new(&strings(&["Rust", "missing", "BORROWING"]));
    let shown = display_matched_terms(&document, &query, &strings(&["rust"]));
    assert_eq!(shown, strings(&["BORROWING", "Rust"]));
    let query = Query::new(&strings(&["absent"]));
    let shown = display_matched_terms(&document, &query, &strings(&["z", "a", "z"]));
    assert_eq!(shown, strings(&["a", "z"]));
    assert_eq!(searchable_text(&document), "Rust Ownership a.md   borrowing");
}

#[test]
fn phrase_hits_need_several_words() {
    let mut document = note(0, "a.md", "Error Handling in Rust", "about error handling", Vec::new());
    document.tags = strings(&["error", "handling"]);
    let hits = phrase_hits(&document, "  Error handling ");
    assert!(hits.is_phrase);
    assert!(hits.title);
    assert!(hits.tags);
    assert!(!hits.headings);
    assert!(hits.body);
    let single = phrase_hits(&document, "error");
    assert!(!single.is_phrase && !single.title && !single.body);
}

#[test]
fn query_terms_do_not_depend_on_word_order_or_repeats() {
    let a = Query::new(&strings(&["borrowing ownership", "Rust"]));
    let b = Query::new(&strings(&["rust", "OWNERSHIP", "borrowing", "rust"]));
    assert_eq!(a.terms, b.terms);
    assert_eq!(a.terms, strings(&["borrowing", "ownership", "rust"]));
}

#[test]
fn highlighting_only_adds_marks() {
    let text = "Rust ownership: 所有权 and more ownership";
    let terms = strings(&["ownership", "所有权"]);
    let marked = highlight_with_marks(text, &terms);
    assert_eq!(marked.replace("<mark>", "").replace("</mark>", ""), text);
    assert_eq!(marked.matches("<mark>").count(), 3);
}
