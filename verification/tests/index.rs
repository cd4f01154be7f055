use md_knowsearch::index::json::{JsonParser, JsonValue};
use md_knowsearch::index::storage::{cache_lines, document_to_json, escape_json, parse_cache_lines};
use md_knowsearch::index::inverted::counts_fit_in;
use md_knowsearch::index::InvertedIndex;
use md_knowsearch::model::{Document, Section};

fn lines_of(text: &str) -> Vec<String> {
    text.lines().map(|line| line.to_string()).collect()
}

fn sample_document() -> Document {
    Document {
        id: 0,
        path: "notes/rust.md".to_string(),
        file_name: "rust.md".to_string(),
        title: "Rust Notes".to_string(),
        headings: vec!["Ownership".to_string()],
        tags: vec!["rust".to_string()],
        modified: 123,
        body: "Ownership and borrowing".to_string(),
        sections: vec![Section {
            heading: "Ownership".to_string(),
            level: 2,
            body: "Ownership and borrowing".to_string(),
        }],
    }
}

#[test]
fn indexes_title_and_body_terms() {
    let document = Document {
        id: 0,
        path: "rust.md".to_string(),
        file_name: "rust.md".to_string(),
        title: "Rust Search".to_string(),
        headings: vec!["Ownership".to_string()],
        tags: vec!["systems".to_string()],
        modified: 0,
        body: "Borrowing and ownership".to_string(),
        sections: vec![Section {
            heading: "Ownership".to_string(),
            level: 2,
            body: "Borrowing and ownership".to_string(),
        }],
    };
    let index = InvertedIndex::build(vec![document]);
    assert_eq!(index.document_frequency("rust"), 1);
    assert_eq!(index.document_frequency("ownership"), 1);
}

#[test]
fn escapes_json_control_characters() {
    assert_eq!(escape_json("a\"b\\c\n"), "a\\\"b\\\\c\\n");
}

#[test]
fn parses_generated_json_string() {
    let mut parser = JsonParser::new("{\"title\":\"Rust\\nSearch\",\"n\":2}");
    let value = parser.parse_complete();
    assert!(matches!(value, Ok(JsonValue::Object(_))));
}

#[test]
fn rejects_trailing_json_data() {
    let mut parser = JsonParser::new("{\"title\":\"Rust\"} trailing");
    let value = parser.parse_complete();
    assert!(value.is_err());
}

#[test]
fn saves_and_loads_document_cache() {
    let documents = vec![sample_document()];

    let lines = cache_lines("notes", &documents);
    let loaded = parse_cache_lines(&lines).expect("cache reads back");

    assert_eq!(loaded.len(), 1);
    assert_eq!(loaded[0].title, "Rust Notes");
    assert_eq!(loaded[0].sections[0].heading, "Ownership");
}

#[test]
fn rejects_unknown_cache_version() {
    let lines = lines_of("{\"type\":\"meta\",\"version\":999,\"root\":\"notes\",\"documents\":0}\n");
    let error = parse_cache_lines(&lines).err();
    assert!(error
        .map(|error| error.message().contains("unsupported cache version"))
        .unwrap_or(false));
}

#[test]
fn rejects_cache_without_metadata() {
    let lines = lines_of(
        "{\"type\":\"doc\",\"path\":\"a.md\",\"file_name\":\"a.md\",\"title\":\"A\",\"modified\":0,\"headings\":[],\"tags\":[],\"body\":\"\",\"sections\":[]}\n",
    );
    let error = parse_cache_lines(&lines).err();
    assert!(error
        .map(|error| error.message().contains("metadata is missing"))
        .unwrap_or(false));
}

#[test]
fn rejects_unknown_cache_record_type() {
    let lines = lines_of(
        "{\"type\":\"meta\",\"version\":1,\"root\":\"notes\",\"documents\":0}\n{\"type\":\"other\"}\n",
    );
    let error = parse_cache_lines(&lines).err();
    assert!(error
        .map(|error| error.message().contains("unsupported cache record type"))
        .unwrap_or(false));
}

#[test]
fn cache_round_trip_keeps_awkward_text() {
    let mut first = sample_document();
    first.title = "Quotes \" and \\ back\tslash \u{1} \u{7f} \u{9f} 知识库 😀".to_string();
    first.body = "line one\nline two\r\n\u{8}\u{c}end".to_string();
    first.tags = vec![String::new(), "ü".to_string()];
    first.modified = u64::MAX;
    first.sections.push(Section { heading: String::new(), level: 255, body: "/".to_string() });
    let mut second = sample_document();
    second.id = 7;
    second.headings = Vec::new();
    second.sections = Vec::new();

    let documents = vec![first.clone(), second.clone()];
    let lines = cache_lines("root \"dir\"", &documents);
    assert_eq!(lines.len(), 3);
    assert!(lines.iter().all(|line| !line.contains('\n') && !line.contains('\r')));

    let loaded = parse_cache_lines(&lines).expect("cache reads back");
    let mut expected_second = second;
    expected_second.id = 1;
    assert_eq!(loaded, vec![first, expected_second]);
}

#[test]
fn cache_skips_blank_lines_and_numbers_documents() {
    let doc_line = document_to_json(&sample_document());
    let lines = vec![
        "{\"type\":\"meta\",\"version\":1,\"root\":\"n\",\"documents\":2}".to_string(),
        "   ".to_string(),
        doc_line.clone(),
        String::new(),
        doc_line,
    ];
    let loaded = parse_cache_lines(&lines).expect("cache reads back");
    assert_eq!(loaded.len(), 2);
    assert_eq!(loaded[0].id, 0);
    assert_eq!(loaded[1].id, 1);
}

#[test]
fn cache_reports_version_exactly() {
    let lines = lines_of("{\"type\":\"meta\",\"version\":2,\"root\":\"n\",\"documents\":0}");
    let error = parse_cache_lines(&lines).err().expect("refused");
    assert_eq!(error.message(), "unsupported cache version 2; expected 1");
}

#[test]
fn cache_reports_record_type_exactly() {
    let lines = lines_of("{\"type\":\"meta\",\"version\":1}\n{\"type\":\"note\"}");
    let error = parse_cache_lines(&lines).err().expect("refused");
    assert_eq!(error.message(), "unsupported cache record type `note`");
}

#[test]
fn empty_cache_lacks_metadata() {
    let error = parse_cache_lines(&[]).err().expect("refused");
    assert_eq!(error.message(), "cache metadata is missing; rebuild the index");
}

#[test]
fn cache_refuses_a_line_that_is_not_an_object() {
    let lines = lines_of("{\"type\":\"meta\",\"version\":1}\n[1,2]");
    let error = parse_cache_lines(&lines).err().expect("refused");
    assert_eq!(error.message(), "cache line 2 is not a JSON object");
    let lines = lines_of("{\"type\":\"meta\",\"version\":1}\n{\"type\":");
    assert!(parse_cache_lines(&lines).is_err());
}

#[test]
fn json_reader_reads_escapes_and_nesting() {
    let mut parser = JsonParser::new(" { \"a\" : [ 1 , \"x\\u0041\\/\" , { } ] , \"b\" : 5 } ");
    match parser.parse_complete() {
        Ok(JsonValue::Object(members)) => {
            assert_eq!(members.len(), 2);
            assert_eq!(members[0].0, "a");
            match &members[0].1 {
                JsonValue::Array(items) => {
                    assert_eq!(items.len(), 3);
                    assert!(matches!(items[0], JsonValue::Number(1)));
                    assert!(matches!(&items[1], JsonValue::String(s) if s == "xA/"));
                    assert!(matches!(&items[2], JsonValue::Object(m) if m.is_empty()));
                }
                _ => panic!("expected an array"),
            }
            assert!(matches!(members[1].1, JsonValue::Number(5)));
        }
        _ => panic!("expected an object"),
    }
}

#[test]
fn json_object_keeps_one_member_per_key() {
    match JsonParser::new("{\"a\":1,\"b\":2,\"a\":{\"c\":3,\"c\":4}}").parse_complete() {
        Ok(JsonValue::Object(members)) => {
            assert_eq!(members.len(), 2);
            assert_eq!(members[0].0, "a");
            assert_eq!(members[1].0, "b");
            assert!(matches!(members[1].1, JsonValue::Number(2)));
            match &members[0].1 {
                JsonValue::Object(inner) => {
                    assert_eq!(inner.len(), 1);
                    assert!(matches!(inner[0].1, JsonValue::Number(4)));
                }
                _ => panic!("expected an object"),
            }
        }
        _ => panic!("expected an object"),
    }
}

#[test]
fn json_reader_refuses_overflow_and_bad_escapes() {
    assert!(JsonParser::new("18446744073709551616").parse_complete().is_err());
    assert!(matches!(
        JsonParser::new("18446744073709551615").parse_complete(),
        Ok(JsonValue::Number(u64::MAX))
    ));
    assert!(JsonParser::new("\"\\q\"").parse_complete().is_err());
    assert!(JsonParser::new("\"\\ud800\"").parse_complete().is_err());
    assert!(JsonParser::new("\"open").parse_complete().is_err());
    assert!(JsonParser::new("").parse_complete().is_err());
}

#[test]
fn escape_json_writes_other_controls_as_unicode_escapes() {
    assert_eq!(escape_json("\u{1}\u{1f}\u{7f}x"), "\\u0001\\u001f\\u007fx");
    assert_eq!(escape_json("\t\r\u{8}\u{c}/"), "\\t\\r\\b\\f/");
}

#[test]
fn postings_list_documents_in_order_with_counts() {
    let mut a = sample_document();
    a.title = "Rust".to_string();
    a.body = "rust rust".to_string();
    a.sections = Vec::new();
    a.headings = Vec::new();
    a.tags = Vec::new();
    let mut b = sample_document();
    b.id = 1;
    b.title = "Other".to_string();
    b.file_name = "other.md".to_string();
    b.body = "nothing here".to_string();
    b.sections = Vec::new();
    b.headings = Vec::new();
    b.tags = Vec::new();
    let c = a.clone();
    let index = InvertedIndex::build(vec![a, b, c]);
    assert_eq!(index.document_count(), 3);
    let postings = index.postings_for("rust").expect("rust occurs");
    let ids: Vec<usize> = postings.iter().map(|(id, _)| *id).collect();
    assert_eq!(ids, vec![0, 2]);
    assert_eq!(postings[0].1.title, 1);
    assert_eq!(postings[0].1.body, 2);
    assert_eq!(postings[0].1.file_name, 1);
    assert_eq!(postings[0].1.total(), 4);
    assert!(index.postings_for("absent").is_none());
    assert_eq!(index.document_frequency("absent"), 0);
    assert_eq!(index.document_frequency("nothing"), 1);
}

fn doc_error(record: &str) -> String {
    let lines = vec![
        "{\"type\":\"meta\",\"version\":1,\"root\":\"n\",\"documents\":1}".to_string(),
        record.to_string(),
    ];
    parse_cache_lines(&lines).err().expect("refused").message()
}

#[test]
fn cache_names_the_field_it_cannot_read() {
    assert_eq!(doc_error("{\"type\":\"doc\",\"sections\":[]}"), "cache is missing field `path`");
    assert_eq!(doc_error("{\"type\":\"doc\"}"), "cache is missing field `sections`");
    assert_eq!(doc_error("{\"type\":\"doc\",\"sections\":5}"), "cache field `sections` is not an array");
    assert_eq!(
        doc_error("{\"type\":\"doc\",\"sections\":[],\"path\":1}"),
        "cache field `path` is not a string"
    );
    assert_eq!(
        doc_error("{\"type\":\"doc\",\"sections\":[],\"path\":\"p\",\"file_name\":\"f\",\"title\":\"t\",\"headings\":[],\"tags\":[\"a\",2]}"),
        "cache array `tags` contains a non-string value"
    );
    assert_eq!(
        doc_error("{\"type\":\"doc\",\"sections\":[],\"path\":\"p\",\"file_name\":\"f\",\"title\":\"t\",\"headings\":[],\"tags\":[],\"modified\":\"x\"}"),
        "cache field `modified` is not a number"
    );
    assert_eq!(doc_error("{\"type\":\"doc\",\"sections\":[1]}"), "section entry is not an object");
    assert_eq!(
        doc_error("{\"type\":\"doc\",\"sections\":[{\"level\":300,\"heading\":\"h\",\"body\":\"b\"}]}"),
        "invalid section level 300"
    );
    assert_eq!(doc_error("{\"kind\":\"doc\"}"), "cache is missing field `type`");
    let lines = vec!["{\"type\":\"meta\"}".to_string()];
    assert_eq!(
        parse_cache_lines(&lines).err().expect("refused").message(),
        "cache is missing field `version`"
    );
}

fn json_error(text: &str) -> String {
    JsonParser::new(text).parse_complete().err().expect("refused").message()
}

#[test]
fn json_reader_says_where_it_stopped() {
    assert_eq!(json_error("{\"a\":1} x"), "unexpected trailing JSON at 8");
    assert_eq!(json_error("  "), "unexpected end of JSON");
    assert_eq!(json_error("@"), "unexpected JSON byte `@` at 0");
    assert_eq!(json_error("é"), "unexpected JSON byte `Ã` at 0");
    assert_eq!(json_error("[1 2]"), "expected `,`, got `2` at 3");
    assert_eq!(json_error("[\"é\" 1]"), "expected `,`, got `1` at 6");
    assert_eq!(json_error("{\"a\" 1}"), "expected `:`, got `1` at 5");
    assert_eq!(json_error("{1:2}"), "expected `\"`, got `1` at 1");
    assert_eq!(json_error("{\"a\":1"), "expected `,`, got end of input");
    assert_eq!(json_error("[1,"), "unexpected end of JSON");
    assert_eq!(json_error("18446744073709551616"), "invalid number `18446744073709551616`");
}

#[test]
fn json_reader_explains_bad_strings() {
    assert_eq!(json_error("\"abc"), "unterminated string");
    assert_eq!(json_error("\"a\\"), "unterminated escape");
    assert_eq!(json_error("\"\\q\""), "unsupported escape `\\q`");
    assert_eq!(json_error("\"\\u12\""), "short unicode escape");
    assert_eq!(json_error("\"\\uzzzz\""), "invalid unicode escape `zzzz`");
    assert_eq!(json_error("\"\\u€a\""), "invalid unicode escape `€a`");
    assert_eq!(json_error("\"\\u€€\""), "invalid unicode escape");
    assert_eq!(json_error("\"\\ud800\""), "invalid codepoint 55296");
    assert!(matches!(
        JsonParser::new("\"\\u+04a\"").parse_complete(),
        Ok(JsonValue::String(s)) if s == "J"
    ));
}

#[test]
fn cache_passes_on_json_messages() {
    let lines = lines_of("{\"type\":\"meta\",\"version\":1}\n{\"type\":\"doc\"");
    assert_eq!(
        parse_cache_lines(&lines).err().expect("refused").message(),
        "expected `,`, got end of input"
    );
}

#[test]
fn ordinary_documents_fit_the_counters() {
    assert!(counts_fit_in(&[sample_document(), sample_document()]));
    assert!(counts_fit_in(&[]));
}

#[test]
fn only_tokenizer_terms_have_postings() {
    let index = InvertedIndex::build(vec![sample_document()]);
    assert!(index.postings_for("rust").is_some());
    assert!(index.postings_for("").is_none());
    assert!(index.postings_for("Rust").is_none());
    assert!(index.postings_for("rust notes").is_none());
}
