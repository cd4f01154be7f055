use md_knowsearch::cli::{documents_for_search, default_cache_path, Command, DocumentSource, Options};
use md_knowsearch::error::AppError;
use md_knowsearch::output::{format_unix_time, results_to_json, OutputFormat, ResultRecord};
use md_knowsearch::tui::{parse_action, split_query, TuiAction};

fn args(items: &[&str]) -> Vec<String> {
    items.iter().map(|item| item.to_string()).collect()
}

fn cli_message(result: Result<Options, AppError>) -> String {
    match result {
        Err(AppError::Cli(message)) => message,
        other => panic!("expected a command-line error, got {other:?}"),
    }
}

#[test]
fn parses_tui_commands() {
    assert_eq!(parse_action("  "), TuiAction::Empty);
    assert_eq!(parse_action(":quit"), TuiAction::Quit);
    assert_eq!(parse_action(":rebuild"), TuiAction::Rebuild);
    assert_eq!(parse_action(":clear"), TuiAction::Clear);
    assert_eq!(parse_action(":help"), TuiAction::Help);
}

#[test]
fn parses_search_action() {
    assert_eq!(parse_action("rust ownership"), TuiAction::Search("rust ownership".to_string()));
    assert_eq!(split_query("rust ownership borrowing"), vec!["rust", "ownership", "borrowing"]);
}

#[test]
fn tui_accepts_short_and_plain_command_words() {
    assert_eq!(parse_action(":q\n"), TuiAction::Quit);
    assert_eq!(parse_action("exit"), TuiAction::Quit);
    assert_eq!(parse_action("quit"), TuiAction::Quit);
    assert_eq!(parse_action(" :h "), TuiAction::Help);
    assert_eq!(parse_action("help"), TuiAction::Help);
    assert_eq!(parse_action(":c"), TuiAction::Clear);
    assert_eq!(parse_action(":r"), TuiAction::Rebuild);
    assert_eq!(parse_action("rebuild"), TuiAction::Rebuild);
    assert_eq!(parse_action("  :quit now \n"), TuiAction::Search(":quit now".to_string()));
    assert!(split_query(" \t ").is_empty());
    assert_eq!(split_query(" 所有权\u{3000}借用 "), vec!["所有权", "借用"]);
}

#[test]
fn no_arguments_asks_for_help() {
    let options = Options::parse(Vec::new()).expect("help");
    assert!(matches!(options.command, Command::Help));
    assert_eq!(options.cache, ".md-knowsearch-cache.jsonl");
    assert_eq!(default_cache_path(), ".md-knowsearch-cache.jsonl");
    for word in ["help", "--help", "-h"] {
        assert!(matches!(Options::parse(args(&[word])).expect("help").command, Command::Help));
    }
}

#[test]
fn parses_index_and_rebuild() {
    let options = Options::parse(args(&["index", "notes", "--cache", "c.jsonl"])).expect("index");
    assert!(matches!(&options.command, Command::Index { dir } if dir == "notes"));
    assert_eq!(options.cache, "c.jsonl");
    let options = Options::parse(args(&["rebuild", "notes"])).expect("rebuild");
    assert!(matches!(&options.command, Command::Rebuild { dir } if dir == "notes"));
    assert_eq!(options.cache, ".md-knowsearch-cache.jsonl");
    let options = Options::parse(args(&["index", "notes", "--cache", "a", "--cache", "b"])).expect("index");
    assert_eq!(options.cache, "b");
}

#[test]
fn index_refuses_bad_arguments() {
    assert_eq!(cli_message(Options::parse(args(&["index"]))), "missing directory");
    assert_eq!(cli_message(Options::parse(args(&["index", "--cache", "c"]))), "missing directory");
    assert_eq!(
        cli_message(Options::parse(args(&["index", "notes", "--cache"]))),
        "missing value after --cache"
    );
    assert_eq!(
        cli_message(Options::parse(args(&["rebuild", "notes", "-h"]))),
        "help is available with `md-knowsearch help`"
    );
    assert_eq!(
        cli_message(Options::parse(args(&["index", "notes", "extra"]))),
        "unexpected argument `extra`"
    );
    assert_eq!(
        cli_message(Options::parse(args(&["serve"]))),
        "unknown command `serve`; try `md-knowsearch help`"
    );
}

#[test]
fn parses_search_options() {
    let options = Options::parse(args(&[
        "search", "rust", "--cache", "c.jsonl", "ownership", "--dir", "notes", "--limit", "+5", "--json", "--rebuild",
    ]))
    .expect("search");
    assert_eq!(options.cache, "c.jsonl");
    match options.command {
        Command::Search { query, dir, limit, format, rebuild } => {
            assert_eq!(query, vec!["rust", "ownership"]);
            assert_eq!(dir.as_deref(), Some("notes"));
            assert_eq!(limit, 5);
            assert_eq!(format, OutputFormat::Json);
            assert!(rebuild);
        }
        other => panic!("expected a search, got {other:?}"),
    }
    let options = Options::parse(args(&["search", "x", "--format", "json", "--text"])).expect("search");
    match options.command {
        Command::Search { limit, format, rebuild, dir, .. } => {
            assert_eq!(limit, 10);
            assert_eq!(format, OutputFormat::Text);
            assert!(!rebuild);
            assert!(dir.is_none());
        }
        other => panic!("expected a search, got {other:?}"),
    }
    let options = Options::parse(args(&["search", "x", "--cache", "c", "--help", "--bogus"])).expect("help");
    assert!(matches!(options.command, Command::Help));
    assert_eq!(options.cache, "c");
}

#[test]
fn search_refuses_bad_options() {
    assert_eq!(cli_message(Options::parse(args(&["search"]))), "search requires one or more keywords");
    assert_eq!(cli_message(Options::parse(args(&["search", "--json"]))), "search requires one or more keywords");
    assert_eq!(cli_message(Options::parse(args(&["search", "x", "--limit", "0"]))), "--limit must be greater than 0");
    assert_eq!(cli_message(Options::parse(args(&["search", "x", "--limit", "ten"]))), "invalid --limit value `ten`");
    assert_eq!(cli_message(Options::parse(args(&["search", "x", "--limit", "-3"]))), "invalid --limit value `-3`");
    assert_eq!(cli_message(Options::parse(args(&["search", "x", "--limit", "+"]))), "invalid --limit value `+`");
    assert_eq!(
        cli_message(Options::parse(args(&["search", "x", "--limit", "99999999999999999999999"]))),
        "invalid --limit value `99999999999999999999999`"
    );
    assert_eq!(cli_message(Options::parse(args(&["search", "x", "--limit"]))), "missing value after --limit");
    assert_eq!(cli_message(Options::parse(args(&["search", "x", "--dir"]))), "missing value after --dir");
    assert_eq!(cli_message(Options::parse(args(&["search", "x", "--cache"]))), "missing value after --cache");
    assert_eq!(cli_message(Options::parse(args(&["search", "x", "--format"]))), "missing value after --format");
    assert_eq!(
        cli_message(Options::parse(args(&["search", "x", "--format", "xml"]))),
        "unsupported format `xml`; use text or json"
    );
    assert_eq!(cli_message(Options::parse(args(&["search", "x", "-v"]))), "unknown option `-v`");
}

#[test]
fn parses_tui_arguments() {
    let options = Options::parse(args(&["tui", "notes", "--limit", "5", "--cache", "t.jsonl"])).expect("tui");
    assert_eq!(options.cache, "t.jsonl");
    assert!(matches!(&options.command, Command::Tui { dir, limit } if dir == "notes" && *limit == 5));
    let options = Options::parse(args(&["tui", "notes"])).expect("tui");
    assert!(matches!(&options.command, Command::Tui { limit, .. } if *limit == 10));
    assert_eq!(cli_message(Options::parse(args(&["tui"]))), "missing directory");
    assert_eq!(cli_message(Options::parse(args(&["tui", "notes", "--limit", "0"]))), "--limit must be greater than 0");
    assert_eq!(cli_message(Options::parse(args(&["tui", "notes", "more"]))), "unexpected argument `more`");
}

#[test]
fn search_takes_documents_from_directory_or_existing_cache() {
    assert_eq!(
        documents_for_search(Some("notes".to_string()), true, false).expect("scan"),
        DocumentSource::Scan("notes".to_string())
    );
    assert_eq!(documents_for_search(None, false, true).expect("cache"), DocumentSource::Cache);
    match documents_for_search(None, true, true) {
        Err(AppError::Cli(message)) => assert_eq!(message, "`--rebuild` on search also needs `--dir <directory>`"),
        other => panic!("unexpected {other:?}"),
    }
    match documents_for_search(None, false, false) {
        Err(AppError::Cli(message)) => {
            assert_eq!(message, "cache is missing; pass --dir <directory> or run `md-knowsearch index` first")
        }
        other => panic!("unexpected {other:?}"),
    }
}

#[test]
fn formats_modification_times() {
    assert_eq!(format_unix_time(0), "unknown");
    assert_eq!(format_unix_time(1_700_000_000), "1700000000");
}

#[test]
fn writes_results_as_json() {
    assert_eq!(results_to_json(&[]), "[]");
    let record = ResultRecord {
        file_path: "notes/a.md".to_string(),
        file_name: "a.md".to_string(),
        title: "A \"quoted\" title".to_string(),
        tags: vec!["rust".to_string(), "x".to_string()],
        modified: 12,
        section: "Intro".to_string(),
        score: "3.5000".to_string(),
        matched_terms: vec!["ownership".to_string(), "rust".to_string()],
        snippet: "line\nnext".to_string(),
        marked_snippet: "<mark>Ownership</mark>".to_string(),
    };
    let text = results_to_json(&[record.clone(), record]);
    let one = "{\"file_path\":\"notes/a.md\",\"file_name\":\"a.md\",\"title\":\"A \\\"quoted\\\" title\",\"tags\":[\"rust\",\"x\"],\"modified\":12,\"section\":\"Intro\",\"score\":3.5000,\"matched_terms\":[\"ownership\",\"rust\"],\"snippet\":\"line\\nnext\",\"highlighted_snippet\":\"<mark>Ownership</mark>\"}";
    assert_eq!(text, format!("[{one},{one}]"));
    assert!(text.contains("\"matched_terms\":[\"ownership\",\"rust\"]"));
}

#[test]
fn search_keeps_last_setting_and_every_keyword() {
    let options = Options::parse(args(&[
        "search", "a", "--limit", "3", "b", "--dir", "x", "--limit", "7", "--dir", "y", "--format", "json", "--format",
        "text", "--cache", "one", "--cache", "two", "c",
    ]))
    .expect("search");
    assert_eq!(options.cache, "two");
    match options.command {
        Command::Search { query, dir, limit, format, rebuild } => {
            assert_eq!(query, vec!["a", "b", "c"]);
            assert_eq!(dir.as_deref(), Some("y"));
            assert_eq!(limit, 7);
            assert_eq!(format, OutputFormat::Text);
            assert!(!rebuild);
        }
        other => panic!("expected a search, got {other:?}"),
    }
    assert_eq!(cli_message(Options::parse(args(&["search", "a", "--verbose", "b"]))), "unknown option `--verbose`");
}
