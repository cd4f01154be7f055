use md_knowsearch::ingest::scanner::{is_ignored_dir, is_supported_file};
use md_knowsearch::ingest::{MarkdownParser, SimpleTokenizer, Tokenizer};

#[test]
fn extracts_markdown_metadata() {
    let parser = MarkdownParser;
    let document = parser.parse(
        0,
        "notes/rust.md",
        "---\ntitle: Rust Notes\ntags: [rust, search]\n---\n# Heading\n## Ownership\nBorrowing #memory\n"
            .to_string(),
        42,
    );

    assert_eq!(document.title, "Rust Notes");
    assert!(document.headings.iter().any(|heading| heading == "Ownership"));
    assert!(document.tags.iter().any(|tag| tag == "rust"));
    assert!(document.tags.iter().any(|tag| tag == "memory"));
}

#[test]
fn ignores_markdown_headings_inside_code_blocks() {
    let parser = MarkdownParser;
    let document = parser.parse(
        0,
        "notes/code.md",
        "# Real Title\n```text\n# Not A Heading\n```\n## Real Section\n".to_string(),
        0,
    );

    assert!(document.headings.iter().any(|heading| heading == "Real Title"));
    assert!(!document.headings.iter().any(|heading| heading == "Not A Heading"));
}

#[test]
fn uses_first_plain_text_line_as_txt_title() {
    let parser = MarkdownParser;
    let document = parser.parse(
        0,
        "notes/search.txt",
        "Local search ranking notes\nTags: #search #ranking\nBody text\n".to_string(),
        0,
    );

    assert_eq!(document.title, "Local search ranking notes");
    assert!(document.tags.iter().any(|tag| tag == "search"));
}

#[test]
fn reads_yaml_style_tag_lists() {
    let parser = MarkdownParser;
    let document = parser.parse(
        0,
        "notes/yaml.md",
        "---\ntags:\n  - rust\n  - search\naliases:\n  - should-not-be-tag\n---\n# Title\n".to_string(),
        0,
    );

    assert!(document.tags.iter().any(|tag| tag == "rust"));
    assert!(document.tags.iter().any(|tag| tag == "search"));
    assert!(!document.tags.iter().any(|tag| tag == "should-not-be-tag"));
}

#[test]
fn tokenizes_ascii_words_and_unicode_chars() {
    let tokenizer = SimpleTokenizer;
    let tokens = tokenizer.tokenize("Rust ownership: 知识库!");
    assert_eq!(tokens, vec!["rust", "ownership", "知识", "识库", "知识库"]);
}

#[test]
fn tokenizes_chinese_phrases_with_short_ngrams() {
    let tokenizer = SimpleTokenizer;
    let tokens = tokenizer.tokenize("所有权 借用");
    assert_eq!(tokens, vec!["所有", "有权", "所有权", "借用"]);
}

#[test]
fn parsed_document_keeps_path_id_and_time() {
    let parser = MarkdownParser;
    let document = parser.parse(7, "notes/deep/rust.md", "# Rust\nbody\n".to_string(), 99);
    assert_eq!(document.id, 7);
    assert_eq!(document.path, "notes/deep/rust.md");
    assert_eq!(document.file_name, "rust.md");
    assert_eq!(document.modified, 99);
    assert_eq!(document.title, "Rust");
    assert!(!document.sections.is_empty());
}

#[test]
fn tags_come_out_sorted_without_repeats() {
    let parser = MarkdownParser;
    let document = parser.parse(
        0,
        "notes/t.md",
        "---\ntags: [zeta, alpha, zeta]\n---\n# T\n#beta #alpha\n".to_string(),
        0,
    );
    assert_eq!(document.tags, vec!["alpha", "beta", "zeta"]);
}

#[test]
fn document_without_heading_takes_first_text_line_as_title() {
    let parser = MarkdownParser;
    let document = parser.parse(0, "notes/plain-note.md", "\n\njust text\n".to_string(), 0);
    assert!(document.headings.is_empty());
    assert_eq!(document.title, "just text");
    assert_eq!(document.sections.len(), 1);
    assert_eq!(document.sections[0].heading, "Document");
    assert_eq!(document.sections[0].body, "just text");
}

#[test]
fn empty_document_takes_file_stem_as_title() {
    let parser = MarkdownParser;
    let document = parser.parse(0, "notes/plain-note.md", String::new(), 0);
    assert_eq!(document.title, "plain-note");
    assert_eq!(document.sections.len(), 1);
    assert_eq!(document.sections[0].level, 0);
    assert_eq!(document.sections[0].body, "");
}

#[test]
fn tokenizer_lowercases_and_splits_on_punctuation() {
    let tokenizer = SimpleTokenizer;
    assert_eq!(tokenizer.tokenize("HELLO, World-42"), vec!["hello", "world", "42"]);
    assert!(tokenizer.tokenize("  !? ").is_empty());
}

#[test]
fn scanner_picks_markdown_and_text_files() {
    assert!(is_supported_file("notes/a.md"));
    assert!(is_supported_file("notes/a.MARKDOWN"));
    assert!(is_supported_file("notes/b.txt"));
    assert!(!is_supported_file("notes/c.rs"));
    assert!(!is_supported_file("notes/README"));
}

#[test]
fn scanner_skips_tool_directories() {
    assert!(is_ignored_dir("project/.git"));
    assert!(is_ignored_dir("project/target"));
    assert!(is_ignored_dir(".vscode"));
    assert!(is_ignored_dir("a/.idea"));
    assert!(!is_ignored_dir("project/notes"));
    assert!(!is_ignored_dir("project/Target"));
}

#[test]
fn title_falls_back_to_stem_before_last_dot() {
    let parser = MarkdownParser;
    assert_eq!(parser.parse(0, "notes/archive.tar.md", String::new(), 0).title, "archive.tar");
    assert_eq!(parser.parse(0, "notes/.hidden", String::new(), 0).title, ".hidden");
    assert_eq!(parser.parse(0, "notes/trailing.", String::new(), 0).title, "trailing");
}

#[test]
fn scanner_reads_extension_after_last_dot() {
    assert!(!is_supported_file("notes/.md"));
    assert!(is_supported_file("notes/.hidden.md"));
    assert!(is_supported_file("notes/a.b.Txt"));
    assert!(!is_supported_file("notes/a.md.bak"));
    assert!(!is_supported_file("notes/a."));
}

#[test]
fn tags_are_lowercase_and_trimmed_of_punctuation() {
    let parser = MarkdownParser;
    let document = parser.parse(0, "n.md", "tags: [\"Rust!\", (Search), -x-, ???]\nSee #Memory_Safe.\n".to_string(), 0);
    assert_eq!(document.tags, vec!["-x-", "memory_safe", "rust", "search"]);
}

#[test]
fn section_bodies_are_trimmed() {
    let parser = MarkdownParser;
    let document = parser.parse(0, "n.md", "# A\n\n   text here  \n\n# B\n  more\n\n".to_string(), 0);
    assert_eq!(document.sections.len(), 2);
    assert_eq!(document.sections[0].body, "text here");
    assert_eq!(document.sections[1].body, "more");
}

#[test]
fn code_block_lines_add_no_heading_but_keep_inline_tags() {
    let parser = MarkdownParser;
    let document = parser.parse(0, "n.md", "# Top\n```\n# not a heading\ntitle: nope #inside\n```\n".to_string(), 0);
    assert_eq!(document.headings, vec!["Top"]);
    assert_eq!(document.title, "Top");
    assert_eq!(document.sections.len(), 1);
    assert_eq!(document.tags, vec!["inside"]);
}
