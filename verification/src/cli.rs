//! Command-line arguments: which command to run and with what options.
use vstd::prelude::*;

use crate::error::{AppError, AppResult};
use crate::index::json::{digit_value, digits_value, is_digit};
use crate::output::OutputFormat;
use crate::text::{chars_eq, chars_of};

verus! {

/// What the user asked for.
#[derive(Debug)]
pub enum Command {
    Index { dir: String },
    Rebuild { dir: String },
    Search {
        query: Vec<String>,
        dir: Option<String>,
        limit: usize,
        format: OutputFormat,
        rebuild: bool,
    },
    Tui { dir: String, limit: usize },
    Help,
}

/// A command and the cache file it works with.
#[derive(Debug)]
pub struct Options {
    pub command: Command,
    pub cache: String,
}

/// A command, with its texts as character sequences.
pub enum CommandView {
    Index { dir: Seq<char> },
    Rebuild { dir: Seq<char> },
    Search {
        query: Seq<Seq<char>>,
        dir: Option<Seq<char>>,
        limit: nat,
        format: OutputFormat,
        rebuild: bool,
    },
    Tui { dir: Seq<char>, limit: nat },
    Help,
}

pub struct OptionsView {
    pub command: CommandView,
    pub cache: Seq<char>,
}

pub open spec fn opt_view(o: Option<String>) -> Option<Seq<char>> {
    match o {
        Some(s) => Some(s@),
        None => None,
    }
}

pub open spec fn command_view(c: Command) -> CommandView {
    match c {
        Command::Index { dir } => CommandView::Index { dir: dir@ },
        Command::Rebuild { dir } => CommandView::Rebuild { dir: dir@ },
        Command::Search { query, dir, limit, format, rebuild } => CommandView::Search {
            query: query.deep_view(),
            dir: opt_view(dir),
            limit: limit as nat,
            format,
            rebuild,
        },
        Command::Tui { dir, limit } => CommandView::Tui { dir: dir@, limit: limit as nat },
        Command::Help => CommandView::Help,
    }
}

pub open spec fn options_view(o: Options) -> OptionsView {
    OptionsView { command: command_view(o.command), cache: o.cache@ }
}

/// The cache file used when none is given.
pub open spec fn default_cache() -> Seq<char> {
    ".md-knowsearch-cache.jsonl"@
}

/// Number of results shown when no limit is given.
pub const DEFAULT_LIMIT: usize = 10;

pub open spec fn starts_dash(s: Seq<char>) -> bool {
    s.len() > 0 && s[0] == '-'
}

pub open spec fn is_help_flag(s: Seq<char>) -> bool {
    s == "--help"@ || s == "-h"@
}

/// `kept` in front of the arguments that a scan left over.
pub open spec fn prepend<V>(kept: Seq<Seq<char>>, r: Result<(Seq<Seq<char>>, V), Seq<char>>) -> Result<(Seq<Seq<char>>, V), Seq<char>> {
    match r {
        Ok((rest, v)) => Ok((kept + rest, v)),
        Err(m) => Err(m),
    }
}

/// The arguments from `i` on without `--cache <file>` pairs, and the cache
/// file (the last one given, else `cache`); an error for a `--cache`
/// without a value or for a help flag.
pub open spec fn cache_from(args: Seq<Seq<char>>, i: int, cache: Seq<char>) -> Result<(Seq<Seq<char>>, Seq<char>), Seq<char>>
    decreases args.len() - i,
{
    if i < 0 || i >= args.len() {
        Ok((Seq::empty(), cache))
    } else if args[i] == "--cache"@ {
        if i + 1 < args.len() {
            cache_from(args, i + 2, args[i + 1])
        } else {
            Err("missing value after --cache"@)
        }
    } else if is_help_flag(args[i]) {
        Err("help is available with `md-knowsearch help`"@)
    } else {
        prepend(seq![args[i]], cache_from(args, i + 1, cache))
    }
}

/// The value of a limit: an optional `+` and decimal digits, fitting in
/// `usize` (what `str::parse::<usize>` accepts).
pub open spec fn limit_value(raw: Seq<char>) -> Option<nat> {
    let ds = limit_digits(raw);
    if ds.len() > 0 && all_digits(ds) && digits_value(ds) <= usize::MAX {
        Some(digits_value(ds))
    } else {
        None
    }
}

/// What follows a leading `+`, if there is one.
pub open spec fn limit_digits(raw: Seq<char>) -> Seq<char> {
    if raw.len() > 0 && raw[0] == '+' {
        raw.skip(1)
    } else {
        raw
    }
}

pub open spec fn all_digits(ds: Seq<char>) -> bool {
    forall|k: int| 0 <= k < ds.len() ==> is_digit(#[trigger] ds[k])
}

/// The value that follows `--limit`, if any, read as a limit.
pub open spec fn limit_spec(value: Option<Seq<char>>) -> Result<nat, Seq<char>> {
    match value {
        None => Err("missing value after --limit"@),
        Some(raw) => match limit_value(raw) {
            None => Err("invalid --limit value `"@ + raw + "`"@),
            Some(n) => if n == 0 {
                Err("--limit must be greater than 0"@)
            } else {
                Ok(n)
            },
        },
    }
}

/// The value that follows `--format`, if any, read as a format.
pub open spec fn format_spec(value: Option<Seq<char>>) -> Result<OutputFormat, Seq<char>> {
    match value {
        None => Err("missing value after --format"@),
        Some(v) => if v == "text"@ {
            Ok(OutputFormat::Text)
        } else if v == "json"@ {
            Ok(OutputFormat::Json)
        } else {
            Err("unsupported format `"@ + v + "`; use text or json"@)
        },
    }
}

pub open spec fn arg_at(args: Seq<Seq<char>>, i: int) -> Option<Seq<char>> {
    if 0 <= i < args.len() {
        Some(args[i])
    } else {
        None
    }
}

/// The arguments from `i` on without `--limit <n>` pairs, and the limit
/// (the last one given, else `limit`).
pub open spec fn limit_from(args: Seq<Seq<char>>, i: int, limit: nat) -> Result<(Seq<Seq<char>>, nat), Seq<char>>
    decreases args.len() - i,
{
    if i < 0 || i >= args.len() {
        Ok((Seq::empty(), limit))
    } else if args[i] == "--limit"@ {
        match limit_spec(arg_at(args, i + 1)) {
            Ok(n) => limit_from(args, i + 2, n),
            Err(m) => Err(m),
        }
    } else {
        prepend(seq![args[i]], limit_from(args, i + 1, limit))
    }
}

/// The settings of a search while its arguments are read.
pub struct SearchScan {
    pub cache: Seq<char>,
    pub dir: Option<Seq<char>>,
    pub limit: nat,
    pub format: OutputFormat,
    pub rebuild: bool,
    pub query: Seq<Seq<char>>,
}

/// How reading the arguments of a search ends.
pub enum ScanEnd {
    Done(SearchScan),
    Help(Seq<char>),
    Fail(Seq<char>),
}

/// Reads the arguments of a search from `i` on, left to right.
pub open spec fn search_scan(args: Seq<Seq<char>>, i: int, st: SearchScan) -> ScanEnd
    decreases args.len() - i,
{
    if i < 0 || i >= args.len() {
        ScanEnd::Done(st)
    } else {
        let a = args[i];
        if a == "--cache"@ {
            match arg_at(args, i + 1) {
                Some(v) => search_scan(args, i + 2, SearchScan { cache: v, dir: st.dir, limit: st.limit, format: st.format, rebuild: st.rebuild, query: st.query }),
                None => ScanEnd::Fail("missing value after "@ + "--cache"@),
            }
        } else if a == "--dir"@ {
            match arg_at(args, i + 1) {
                Some(v) => search_scan(args, i + 2, SearchScan { cache: st.cache, dir: Some(v), limit: st.limit, format: st.format, rebuild: st.rebuild, query: st.query }),
                None => ScanEnd::Fail("missing value after "@ + "--dir"@),
            }
        } else if a == "--limit"@ {
            match limit_spec(arg_at(args, i + 1)) {
                Ok(n) => search_scan(args, i + 2, SearchScan { cache: st.cache, dir: st.dir, limit: n, format: st.format, rebuild: st.rebuild, query: st.query }),
                Err(m) => ScanEnd::Fail(m),
            }
        } else if a == "--format"@ {
            match format_spec(arg_at(args, i + 1)) {
                Ok(f) => search_scan(args, i + 2, SearchScan { cache: st.cache, dir: st.dir, limit: st.limit, format: f, rebuild: st.rebuild, query: st.query }),
                Err(m) => ScanEnd::Fail(m),
            }
        } else if a == "--json"@ {
            search_scan(args, i + 1, SearchScan { cache: st.cache, dir: st.dir, limit: st.limit, format: OutputFormat::Json, rebuild: st.rebuild, query: st.query })
        } else if a == "--text"@ {
            search_scan(args, i + 1, SearchScan { cache: st.cache, dir: st.dir, limit: st.limit, format: OutputFormat::Text, rebuild: st.rebuild, query: st.query })
        } else if a == "--rebuild"@ {
            search_scan(args, i + 1, SearchScan { cache: st.cache, dir: st.dir, limit: st.limit, format: st.format, rebuild: true, query: st.query })
        } else if is_help_flag(a) {
            ScanEnd::Help(st.cache)
        } else if starts_dash(a) {
            ScanEnd::Fail("unknown option `"@ + a + "`"@)
        } else {
            search_scan(args, i + 1, SearchScan { cache: st.cache, dir: st.dir, limit: st.limit, format: st.format, rebuild: st.rebuild, query: st.query.push(a) })
        }
    }
}

/// The directory argument of `index`, `rebuild` and `tui` and the cache file,
/// read from the arguments after the command's name.
pub open spec fn dir_and_cache(rest: Seq<Seq<char>>) -> Result<(Seq<Seq<char>>, Seq<char>, Seq<char>), Seq<char>> {
    if rest.len() == 0 || starts_dash(rest[0]) {
        Err("missing "@ + "directory"@)
    } else {
        match cache_from(rest, 1, default_cache()) {
            Ok((kept, cache)) => Ok((kept, rest[0], cache)),
            Err(m) => Err(m),
        }
    }
}

pub open spec fn unexpected(a: Seq<char>) -> Seq<char> {
    "unexpected argument `"@ + a + "`"@
}

/// What the arguments of the program ask for, or the message of the error
/// they are refused with.
pub open spec fn parse_spec(args: Seq<Seq<char>>) -> Result<OptionsView, Seq<char>> {
    if args.len() == 0 {
        Ok(OptionsView { command: CommandView::Help, cache: default_cache() })
    } else {
        let name = args[0];
        let rest = args.skip(1);
        if name == "index"@ || name == "rebuild"@ {
            match dir_and_cache(rest) {
                Ok((kept, dir, cache)) => if kept.len() > 0 {
                    Err(unexpected(kept[0]))
                } else if name == "index"@ {
                    Ok(OptionsView { command: CommandView::Index { dir }, cache })
                } else {
                    Ok(OptionsView { command: CommandView::Rebuild { dir }, cache })
                },
                Err(m) => Err(m),
            }
        } else if name == "search"@ {
            search_outcome(search_scan(rest, 0, search_start()))
        } else if name == "tui"@ {
            match dir_and_cache(rest) {
                Ok((kept, dir, cache)) => match limit_from(kept, 0, DEFAULT_LIMIT as nat) {
                    Ok((left, limit)) => if left.len() > 0 {
                        Err(unexpected(left[0]))
                    } else {
                        Ok(OptionsView { command: CommandView::Tui { dir, limit }, cache })
                    },
                    Err(m) => Err(m),
                },
                Err(m) => Err(m),
            }
        } else if name == "help"@ || is_help_flag(name) {
            Ok(OptionsView { command: CommandView::Help, cache: default_cache() })
        } else {
            Err("unknown command `"@ + name + "`; try `md-knowsearch help`"@)
        }
    }
}

/// A command-line error with the message `text`.
fn cli_error(text: &str) -> (r: AppError)
    ensures
        r matches AppError::Cli(m) && m@ == text@,
{
    AppError::Cli(text.to_owned())
}

/// A command-line error with the message `head`, `middle`, `tail`.
fn cli_error3(head: &str, middle: &str, tail: &str) -> (r: AppError)
    ensures
        r matches AppError::Cli(m) && m@ == head@ + middle@ + tail@,
{
    let mut m: String = head.to_owned();
    m.append(middle);
    m.append(tail);
    AppError::Cli(m)
}

/// Whether `s` is the text `lit`.
fn is(s: &str, lit: &str) -> (r: bool)
    ensures
        r == (s@ == lit@),
{
    let a = chars_of(s);
    let b = chars_of(lit);
    chars_eq(a.as_slice(), b.as_slice())
}

fn dash_first(s: &str) -> (r: bool)
    ensures
        r == starts_dash(s@),
{
    let cs = chars_of(s);
    cs.len() > 0 && cs[0] == '-'
}

fn help_flag(s: &str) -> (r: bool)
    ensures
        r == is_help_flag(s@),
{
    is(s, "--help") || is(s, "-h")
}

/// The cache file used when none is given.
pub fn default_cache_path() -> (r: String)
    ensures
        r@ == default_cache(),
{
    ".md-knowsearch-cache.jsonl".to_owned()
}

proof fn lemma_prepend_one<V>(kept: Seq<Seq<char>>, a: Seq<char>, r: Result<(Seq<Seq<char>>, V), Seq<char>>)
    ensures
        prepend(kept, prepend(seq![a], r)) == prepend(kept.push(a), r),
{
    match r {
        Ok((rest, v)) => {
            assert(kept + (seq![a] + rest) =~= kept.push(a) + rest);
        },
        Err(m) => {},
    }
}

/// Takes `--cache <file>` pairs out of the arguments from `from` on.
fn take_cache(args: &[String], from: usize, default: String) -> (r: AppResult<(Vec<String>, String)>)
    requires
        from <= args@.len(),
    ensures
        match cache_from(args.deep_view(), from as int, default@) {
            Ok((kept, c)) => r matches Ok((v, s)) && v.deep_view() == kept && s@ == c,
            Err(m) => r matches Err(AppError::Cli(e)) && e@ == m,
        },
{
    let ghost av = args.deep_view();
    let mut kept: Vec<String> = Vec::new();
    let mut cache = default;
    let mut i: usize = from;
    assert(kept.deep_view() =~= Seq::<Seq<char>>::empty());
    assert(prepend(Seq::<Seq<char>>::empty(), cache_from(av, i as int, cache@)) == cache_from(av, i as int, cache@)) by {
        match cache_from(av, i as int, cache@) {
            Ok((rest, c)) => {
                assert(Seq::<Seq<char>>::empty() + rest =~= rest);
            },
            Err(m) => {},
        }
    }
    while i < args.len()
        invariant
            from <= i <= args@.len(),
            av == args.deep_view(),
            cache_from(av, from as int, default@) == prepend(kept.deep_view(), cache_from(av, i as int, cache@)),
        decreases args.len() - i,
    {
        let a = args[i].as_str();
        assert(av[i as int] == args@[i as int]@);
        if is(a, "--cache") {
            if i + 1 >= args.len() {
                return Err(cli_error("missing value after --cache"));
            }
            assert(av[i + 1] == args@[i + 1]@);
            cache = args[i + 1].clone();
            i += 2;
        } else if help_flag(a) {
            return Err(cli_error("help is available with `md-knowsearch help`"));
        } else {
            let ghost before = kept.deep_view();
            proof {
                lemma_prepend_one(before, av[i as int], cache_from(av, i + 1, cache@));
            }
            kept.push(args[i].clone());
            assert(kept.deep_view() =~= before.push(av[i as int]));
            i += 1;
        }
    }
    assert(kept.deep_view() + Seq::<Seq<char>>::empty() =~= kept.deep_view());
    Ok((kept, cache))
}

/// Reads a limit: an optional `+`, then decimal digits.
fn limit_of(raw: &str) -> (r: Option<usize>)
    ensures
        match limit_value(raw@) {
            Some(n) => r == Some(n as usize),
            None => r is None,
        },
{
    let cs = chars_of(raw);
    let ghost s = cs@;
    let start: usize = if cs.len() > 0 && cs[0] == '+' { 1 } else { 0 };
    let ghost ds = limit_digits(s);
    assert(ds =~= s.subrange(start as int, s.len() as int));
    if start >= cs.len() {
        return None;
    }
    let mut value: usize = 0;
    let mut overflow = false;
    let mut i: usize = start;
    while i < cs.len()
        invariant
            cs@ == s,
            s == raw@,
            ds == limit_digits(s),
            start <= i <= s.len(),
            ds == s.subrange(start as int, s.len() as int),
            forall|k: int| start <= k < i ==> is_digit(#[trigger] s[k]),
            !overflow ==> value == digits_value(s.subrange(start as int, i as int)),
            overflow ==> digits_value(s.subrange(start as int, i as int)) > usize::MAX,
        decreases s.len() - i,
    {
        let c = cs[i];
        if !('0' <= c && c <= '9') {
            assert(!is_digit(ds[i - start]));
            return None;
        }
        let d = (c as u32 - '0' as u32) as usize;
        let ghost prefix = s.subrange(start as int, i as int);
        let ghost next = s.subrange(start as int, i + 1);
        assert(next.drop_last() =~= prefix);
        assert(digits_value(next) == digits_value(prefix) * 10 + digit_value(c));
        if !overflow {
            if value > (usize::MAX - d) / 10 {
                overflow = true;
            } else {
                value = value * 10 + d;
            }
        } else {
            assert(digits_value(next) >= digits_value(prefix)) by (nonlinear_arith)
                requires digits_value(next) == digits_value(prefix) * 10 + digit_value(c);
        }
        i += 1;
    }
    assert(s.subrange(start as int, i as int) =~= ds);
    assert forall|k: int| 0 <= k < ds.len() implies is_digit(#[trigger] ds[k]) by {
        assert(ds[k] == s[k + start]);
    }
    if overflow {
        None
    } else {
        Some(value)
    }
}

/// Reads the value given after `--limit`.
fn parse_limit(value: Option<&String>) -> (r: AppResult<usize>)
    ensures
        match limit_spec(match value { Some(v) => Some(v@), None => None }) {
            Ok(n) => r == Ok::<usize, AppError>(n as usize),
            Err(m) => r matches Err(AppError::Cli(e)) && e@ == m,
        },
{
    match value {
        None => Err(cli_error("missing value after --limit")),
        Some(raw) => match limit_of(raw.as_str()) {
            None => Err(cli_error3("invalid --limit value `", raw.as_str(), "`")),
            Some(n) => if n == 0 {
                Err(cli_error("--limit must be greater than 0"))
            } else {
                Ok(n)
            },
        },
    }
}

/// Reads the value given after `--format`.
fn parse_format(value: Option<&String>) -> (r: AppResult<OutputFormat>)
    ensures
        match format_spec(match value { Some(v) => Some(v@), None => None }) {
            Ok(f) => r == Ok::<OutputFormat, AppError>(f),
            Err(m) => r matches Err(AppError::Cli(e)) && e@ == m,
        },
{
    match value {
        None => Err(cli_error("missing value after --format")),
        Some(v) => if is(v.as_str(), "text") {
            Ok(OutputFormat::Text)
        } else if is(v.as_str(), "json") {
            Ok(OutputFormat::Json)
        } else {
            Err(cli_error3("unsupported format `", v.as_str(), "`; use text or json"))
        },
    }
}

/// The argument at `from`, which names a path; refused when it is missing
/// or looks like an option.
fn take_required_path(args: &[String], from: usize, label: &str) -> (r: AppResult<String>)
    requires
        from <= args@.len(),
    ensures
        if from >= args@.len() || starts_dash(args@[from as int]@) {
            r matches Err(AppError::Cli(e)) && e@ == "missing "@ + label@
        } else {
            r matches Ok(p) && p@ == args@[from as int]@
        },
{
    if from >= args.len() || dash_first(args[from].as_str()) {
        let mut m: String = "missing ".to_owned();
        m.append(label);
        return Err(AppError::Cli(m));
    }
    Ok(args[from].clone())
}

/// Refuses arguments that no option took.
fn reject_extra(args: &[String]) -> (r: AppResult<()>)
    ensures
        args@.len() == 0 ==> r is Ok,
        args@.len() > 0 ==> (r matches Err(AppError::Cli(e)) && e@ == unexpected(args@[0]@)),
{
    if args.len() == 0 {
        Ok(())
    } else {
        Err(cli_error3("unexpected argument `", args[0].as_str(), "`"))
    }
}

/// The value given after `flag`.
fn parse_path_arg(value: Option<&String>, flag: &str) -> (r: AppResult<String>)
    ensures
        match value {
            Some(v) => r matches Ok(p) && p@ == v@,
            None => r matches Err(AppError::Cli(e)) && e@ == "missing value after "@ + flag@,
        },
{
    match value {
        Some(v) => Ok(v.clone()),
        None => {
            let mut m: String = "missing value after ".to_owned();
            m.append(flag);
            Err(AppError::Cli(m))
        },
    }
}

fn arg_ref(args: &[String], i: usize) -> (r: Option<&String>)
    ensures
        match arg_at(args.deep_view(), i as int) {
            Some(a) => r matches Some(s) && s@ == a,
            None => r is None,
        },
{
    if i < args.len() {
        Some(&args[i])
    } else {
        None
    }
}

/// Takes `--limit <n>` pairs out of the arguments.
fn take_limit(args: &[String], default: usize) -> (r: AppResult<(Vec<String>, usize)>)
    ensures
        match limit_from(args.deep_view(), 0, default as nat) {
            Ok((kept, n)) => r matches Ok((v, m)) && v.deep_view() == kept && m == n,
            Err(e) => r matches Err(AppError::Cli(t)) && t@ == e,
        },
{
    let ghost av = args.deep_view();
    let mut kept: Vec<String> = Vec::new();
    let mut limit = default;
    let mut i: usize = 0;
    assert(kept.deep_view() =~= Seq::<Seq<char>>::empty());
    assert(prepend(Seq::<Seq<char>>::empty(), limit_from(av, 0, limit as nat)) == limit_from(av, 0, limit as nat)) by {
        match limit_from(av, 0, limit as nat) {
            Ok((rest, c)) => {
                assert(Seq::<Seq<char>>::empty() + rest =~= rest);
            },
            Err(m) => {},
        }
    }
    while i < args.len()
        invariant
            i <= args@.len(),
            av == args.deep_view(),
            limit_from(av, 0, default as nat) == prepend(kept.deep_view(), limit_from(av, i as int, limit as nat)),
        decreases args.len() - i,
    {
        assert(av[i as int] == args@[i as int]@);
        if is(args[i].as_str(), "--limit") {
            let n = parse_limit(arg_ref(args, i + 1))?;
            limit = n;
            i += 2;
        } else {
            let ghost before = kept.deep_view();
            proof {
                lemma_prepend_one(before, av[i as int], limit_from(av, i + 1, limit as nat));
            }
            kept.push(args[i].clone());
            assert(kept.deep_view() =~= before.push(av[i as int]));
            i += 1;
        }
    }
    assert(kept.deep_view() + Seq::<Seq<char>>::empty() =~= kept.deep_view());
    Ok((kept, limit))
}

/// What a search is reading: its settings so far.
pub open spec fn scan_of(cache: String, dir: Option<String>, limit: usize, format: OutputFormat, rebuild: bool, query: Seq<Seq<char>>) -> SearchScan {
    SearchScan { cache: cache@, dir: opt_view(dir), limit: limit as nat, format, rebuild, query }
}

pub open spec fn search_outcome(end: ScanEnd) -> Result<OptionsView, Seq<char>> {
    match end {
        ScanEnd::Done(st) => if st.query.len() == 0 {
            Err("search requires one or more keywords"@)
        } else {
            Ok(OptionsView {
                command: CommandView::Search { query: st.query, dir: st.dir, limit: st.limit, format: st.format, rebuild: st.rebuild },
                cache: st.cache,
            })
        },
        ScanEnd::Help(cache) => Ok(OptionsView { command: CommandView::Help, cache }),
        ScanEnd::Fail(m) => Err(m),
    }
}

pub open spec fn search_start() -> SearchScan {
    SearchScan {
        cache: default_cache(),
        dir: None,
        limit: DEFAULT_LIMIT as nat,
        format: OutputFormat::Text,
        rebuild: false,
        query: Seq::empty(),
    }
}

/// Reads the arguments of a search (those after the command's name).
fn parse_search(args: &[String]) -> (r: AppResult<Options>)
    ensures
        match search_outcome(search_scan(args.deep_view(), 0, search_start())) {
            Ok(v) => r matches Ok(o) && options_view(o) == v,
            Err(m) => r matches Err(AppError::Cli(e)) && e@ == m,
        },
{
    let ghost av = args.deep_view();
    let mut cache = default_cache_path();
    let mut dir: Option<String> = None;
    let mut limit: usize = DEFAULT_LIMIT;
    let mut format = OutputFormat::Text;
    let mut rebuild = false;
    let mut query: Vec<String> = Vec::new();
    let mut index: usize = 0;
    assert(query.deep_view() =~= Seq::<Seq<char>>::empty());
    assert(scan_of(cache, dir, limit, format, rebuild, query.deep_view()) == search_start());
    while index < args.len()
        invariant
            index <= args@.len(),
            av == args.deep_view(),
            search_scan(av, 0, search_start()) == search_scan(av, index as int, scan_of(cache, dir, limit, format, rebuild, query.deep_view())),
        decreases args.len() - index,
    {
        let a = args[index].as_str();
        assert(av[index as int] == a@);
        if is(a, "--cache") {
            index += 1;
            cache = parse_path_arg(arg_ref(args, index), "--cache")?;
        } else if is(a, "--dir") {
            index += 1;
            dir = Some(parse_path_arg(arg_ref(args, index), "--dir")?);
        } else if is(a, "--limit") {
            index += 1;
            limit = parse_limit(arg_ref(args, index))?;
        } else if is(a, "--format") {
            index += 1;
            format = parse_format(arg_ref(args, index))?;
        } else if is(a, "--json") {
            format = OutputFormat::Json;
        } else if is(a, "--text") {
            format = OutputFormat::Text;
        } else if is(a, "--rebuild") {
            rebuild = true;
        } else if help_flag(a) {
            return Ok(Options { command: Command::Help, cache });
        } else if dash_first(a) {
            return Err(cli_error3("unknown option `", a, "`"));
        } else {
            let ghost before = query.deep_view();
            query.push(args[index].clone());
            assert(query.deep_view() =~= before.push(a@));
        }
        index += 1;
    }
    if query.len() == 0 {
        return Err(cli_error("search requires one or more keywords"));
    }
    Ok(Options { command: Command::Search { query, dir, limit, format, rebuild }, cache })
}

impl Options {
    /// Reads the program's arguments (without the program's name).
    pub fn parse(args: Vec<String>) -> (r: AppResult<Self>)
        ensures
            match parse_spec(args.deep_view()) {
                Ok(v) => r matches Ok(o) && options_view(o) == v,
                Err(m) => r matches Err(AppError::Cli(e)) && e@ == m,
            },
    {
        if args.len() == 0 {
            return Ok(Options { command: Command::Help, cache: default_cache_path() });
        }
        let ghost av = args.deep_view();
        let rest = vstd::slice::slice_subrange(args.as_slice(), 1, args.len());
        assert(rest.deep_view() =~= av.skip(1));
        let name = args[0].as_str();
        assert(av[0] == name@);
        if is(name, "index") || is(name, "rebuild") {
            let dir = take_required_path(rest, 0, "directory")?;
            let (kept, cache) = take_cache(rest, 1, default_cache_path())?;
            reject_extra(kept.as_slice())?;
            if is(name, "index") {
                Ok(Options { command: Command::Index { dir }, cache })
            } else {
                Ok(Options { command: Command::Rebuild { dir }, cache })
            }
        } else if is(name, "search") {
            parse_search(rest)
        } else if is(name, "tui") {
            let dir = take_required_path(rest, 0, "directory")?;
            let (kept, cache) = take_cache(rest, 1, default_cache_path())?;
            let (left, limit) = take_limit(kept.as_slice(), DEFAULT_LIMIT)?;
            reject_extra(left.as_slice())?;
            Ok(Options { command: Command::Tui { dir, limit }, cache })
        } else if is(name, "help") || help_flag(name) {
            Ok(Options { command: Command::Help, cache: default_cache_path() })
        } else {
            Err(cli_error3("unknown command `", name, "`; try `md-knowsearch help`"))
        }
    }
}


/// Where a search takes its documents from.
#[derive(Debug, Clone, PartialEq, Eq)]
pub enum DocumentSource {
    /// Scan this directory, and refresh the cache with what it holds.
    Scan(String),
    /// Read the cache file.
    Cache,
}

/// Where a search takes its documents from: the directory given with
/// `--dir`; else the cache, which must exist, and `--rebuild` needs a
/// directory.
pub fn documents_for_search(dir: Option<String>, rebuild: bool, cache_exists: bool) -> (r: AppResult<DocumentSource>)
    ensures
        match dir {
            Some(d) => r matches Ok(DocumentSource::Scan(x)) && x@ == d@,
            None => if rebuild {
                r matches Err(AppError::Cli(e)) && e@ == "`--rebuild` on search also needs `--dir <directory>`"@
            } else if !cache_exists {
                r matches Err(AppError::Cli(e)) && e@ == "cache is missing; pass --dir <directory> or run `md-knowsearch index` first"@
            } else {
                r matches Ok(DocumentSource::Cache)
            },
        },
{
    if let Some(scan_dir) = dir {
        return Ok(DocumentSource::Scan(scan_dir));
    }
    if rebuild {
        return Err(cli_error("`--rebuild` on search also needs `--dir <directory>`"));
    }
    if !cache_exists {
        return Err(cli_error("cache is missing; pass --dir <directory> or run `md-knowsearch index` first"));
    }
    Ok(DocumentSource::Cache)
}

proof fn lemma_scan_limit(args: Seq<Seq<char>>, i: int, st: SearchScan)
    requires
        st.limit >= 1,
    ensures
        search_scan(args, i, st) matches ScanEnd::Done(end) ==> end.limit >= 1,
    decreases args.len() - i,
{
    if 0 <= i < args.len() {
        let a = args[i];
        if a == "--cache"@ {
            if let Some(v) = arg_at(args, i + 1) {
                lemma_scan_limit(args, i + 2, SearchScan { cache: v, dir: st.dir, limit: st.limit, format: st.format, rebuild: st.rebuild, query: st.query });
            }
        } else if a == "--dir"@ {
            if let Some(v) = arg_at(args, i + 1) {
                lemma_scan_limit(args, i + 2, SearchScan { cache: st.cache, dir: Some(v), limit: st.limit, format: st.format, rebuild: st.rebuild, query: st.query });
            }
        } else if a == "--limit"@ {
            if let Ok(n) = limit_spec(arg_at(args, i + 1)) {
                lemma_scan_limit(args, i + 2, SearchScan { cache: st.cache, dir: st.dir, limit: n, format: st.format, rebuild: st.rebuild, query: st.query });
            }
        } else if a == "--format"@ {
            if let Ok(f) = format_spec(arg_at(args, i + 1)) {
                lemma_scan_limit(args, i + 2, SearchScan { cache: st.cache, dir: st.dir, limit: st.limit, format: f, rebuild: st.rebuild, query: st.query });
            }
        } else if a == "--json"@ {
            lemma_scan_limit(args, i + 1, SearchScan { cache: st.cache, dir: st.dir, limit: st.limit, format: OutputFormat::Json, rebuild: st.rebuild, query: st.query });
        } else if a == "--text"@ {
            lemma_scan_limit(args, i + 1, SearchScan { cache: st.cache, dir: st.dir, limit: st.limit, format: OutputFormat::Text, rebuild: st.rebuild, query: st.query });
        } else if a == "--rebuild"@ {
            lemma_scan_limit(args, i + 1, SearchScan { cache: st.cache, dir: st.dir, limit: st.limit, format: st.format, rebuild: true, query: st.query });
        } else if is_help_flag(a) || starts_dash(a) {
        } else {
            lemma_scan_limit(args, i + 1, SearchScan { cache: st.cache, dir: st.dir, limit: st.limit, format: st.format, rebuild: st.rebuild, query: st.query.push(a) });
        }
    }
}

proof fn lemma_limit_from_positive(args: Seq<Seq<char>>, i: int, limit: nat)
    requires
        limit >= 1,
    ensures
        limit_from(args, i, limit) matches Ok((_, n)) ==> n >= 1,
    decreases args.len() - i,
{
    if 0 <= i < args.len() {
        if args[i] == "--limit"@ {
            if let Ok(n) = limit_spec(arg_at(args, i + 1)) {
                lemma_limit_from_positive(args, i + 2, n);
            }
        } else {
            lemma_limit_from_positive(args, i + 1, limit);
        }
    }
}

/// A search or an interactive session that the arguments ask for shows at
/// least one result: a limit of zero is refused.
pub proof fn lemma_parsed_limit_positive(args: Seq<Seq<char>>)
    ensures
        parse_spec(args) matches Ok(o) ==> (match o.command {
            CommandView::Search { limit, .. } => limit >= 1,
            CommandView::Tui { limit, .. } => limit >= 1,
            _ => true,
        }),
{
    if args.len() > 0 {
        let rest = args.skip(1);
        lemma_scan_limit(rest, 0, search_start());
        if let Ok((kept, dir, cache)) = dir_and_cache(rest) {
            lemma_limit_from_positive(kept, 0, DEFAULT_LIMIT as nat);
        }
    }
}

proof fn lemma_search_scan_shift(a: Seq<Seq<char>>, b: Seq<Seq<char>>, j: int, st: SearchScan)
    requires
        0 <= j,
    ensures
        search_scan(a + b, a.len() + j, st) == search_scan(b, j, st),
    decreases b.len() - j,
{
    let ab = a + b;
    let i = a.len() + j;
    if j < b.len() {
        let x = b[j];
        assert(ab[i] == x);
        assert(arg_at(ab, i + 1) == arg_at(b, j + 1));
        if x == "--cache"@ {
            if let Some(v) = arg_at(b, j + 1) {
                lemma_search_scan_shift(a, b, j + 2, SearchScan { cache: v, dir: st.dir, limit: st.limit, format: st.format, rebuild: st.rebuild, query: st.query });
            }
        } else if x == "--dir"@ {
            if let Some(v) = arg_at(b, j + 1) {
                lemma_search_scan_shift(a, b, j + 2, SearchScan { cache: st.cache, dir: Some(v), limit: st.limit, format: st.format, rebuild: st.rebuild, query: st.query });
            }
        } else if x == "--limit"@ {
            if let Ok(n) = limit_spec(arg_at(b, j + 1)) {
                lemma_search_scan_shift(a, b, j + 2, SearchScan { cache: st.cache, dir: st.dir, limit: n, format: st.format, rebuild: st.rebuild, query: st.query });
            }
        } else if x == "--format"@ {
            if let Ok(f) = format_spec(arg_at(b, j + 1)) {
                lemma_search_scan_shift(a, b, j + 2, SearchScan { cache: st.cache, dir: st.dir, limit: st.limit, format: f, rebuild: st.rebuild, query: st.query });
            }
        } else if x == "--json"@ {
            lemma_search_scan_shift(a, b, j + 1, SearchScan { cache: st.cache, dir: st.dir, limit: st.limit, format: OutputFormat::Json, rebuild: st.rebuild, query: st.query });
        } else if x == "--text"@ {
            lemma_search_scan_shift(a, b, j + 1, SearchScan { cache: st.cache, dir: st.dir, limit: st.limit, format: OutputFormat::Text, rebuild: st.rebuild, query: st.query });
        } else if x == "--rebuild"@ {
            lemma_search_scan_shift(a, b, j + 1, SearchScan { cache: st.cache, dir: st.dir, limit: st.limit, format: st.format, rebuild: true, query: st.query });
        } else if is_help_flag(x) || starts_dash(x) {
        } else {
            lemma_search_scan_shift(a, b, j + 1, SearchScan { cache: st.cache, dir: st.dir, limit: st.limit, format: st.format, rebuild: st.rebuild, query: st.query.push(x) });
        }
    }
}

/// The arguments of a search are read one after the other: when the first
/// part `a` reads through to settings `s1`, reading `a` followed by `b`
/// is reading `b` from `s1`.
pub proof fn lemma_search_scan_concat(a: Seq<Seq<char>>, b: Seq<Seq<char>>, i: int, st: SearchScan)
    requires
        0 <= i <= a.len(),
    ensures
        search_scan(a, i, st) matches ScanEnd::Done(s1) ==> search_scan(a + b, i, st) == search_scan(b, 0, s1),
    decreases a.len() - i,
{
    let ab = a + b;
    if i == a.len() {
        lemma_search_scan_shift(a, b, 0, st);
    } else {
        let x = a[i];
        assert(ab[i] == x);
        assert(i + 1 < a.len() ==> arg_at(ab, i + 1) == arg_at(a, i + 1));
        if x == "--cache"@ {
            if let Some(v) = arg_at(a, i + 1) {
                lemma_search_scan_concat(a, b, i + 2, SearchScan { cache: v, dir: st.dir, limit: st.limit, format: st.format, rebuild: st.rebuild, query: st.query });
            }
        } else if x == "--dir"@ {
            if let Some(v) = arg_at(a, i + 1) {
                lemma_search_scan_concat(a, b, i + 2, SearchScan { cache: st.cache, dir: Some(v), limit: st.limit, format: st.format, rebuild: st.rebuild, query: st.query });
            }
        } else if x == "--limit"@ {
            if let Ok(n) = limit_spec(arg_at(a, i + 1)) {
                lemma_search_scan_concat(a, b, i + 2, SearchScan { cache: st.cache, dir: st.dir, limit: n, format: st.format, rebuild: st.rebuild, query: st.query });
            }
        } else if x == "--format"@ {
            if let Ok(f) = format_spec(arg_at(a, i + 1)) {
                lemma_search_scan_concat(a, b, i + 2, SearchScan { cache: st.cache, dir: st.dir, limit: st.limit, format: f, rebuild: st.rebuild, query: st.query });
            }
        } else if x == "--json"@ {
            lemma_search_scan_concat(a, b, i + 1, SearchScan { cache: st.cache, dir: st.dir, limit: st.limit, format: OutputFormat::Json, rebuild: st.rebuild, query: st.query });
        } else if x == "--text"@ {
            lemma_search_scan_concat(a, b, i + 1, SearchScan { cache: st.cache, dir: st.dir, limit: st.limit, format: OutputFormat::Text, rebuild: st.rebuild, query: st.query });
        } else if x == "--rebuild"@ {
            lemma_search_scan_concat(a, b, i + 1, SearchScan { cache: st.cache, dir: st.dir, limit: st.limit, format: st.format, rebuild: true, query: st.query });
        } else if is_help_flag(x) || starts_dash(x) {
        } else {
            lemma_search_scan_concat(a, b, i + 1, SearchScan { cache: st.cache, dir: st.dir, limit: st.limit, format: st.format, rebuild: st.rebuild, query: st.query.push(x) });
        }
    }
}

proof fn lemma_option_literals()
    ensures
        "--cache"@ != "--dir"@,
        "--cache"@ != "--limit"@,
        "--cache"@ != "--format"@,
        "--dir"@ != "--limit"@,
        "--dir"@ != "--format"@,
        "--limit"@ != "--format"@,
        starts_dash("--cache"@),
        starts_dash("--dir"@),
        starts_dash("--limit"@),
        starts_dash("--format"@),
        starts_dash("--json"@),
        starts_dash("--text"@),
        starts_dash("--rebuild"@),
        starts_dash("--help"@),
        starts_dash("-h"@),
{
    reveal_strlit("--cache");
    reveal_strlit("--dir");
    reveal_strlit("--limit");
    reveal_strlit("--format");
    reveal_strlit("--json");
    reveal_strlit("--text");
    reveal_strlit("--rebuild");
    reveal_strlit("--help");
    reveal_strlit("-h");
    assert("--cache"@[2] != "--dir"@[2]);
    assert("--cache"@[2] != "--limit"@[2]);
    assert("--cache"@[2] != "--format"@[2]);
    assert("--dir"@[2] != "--limit"@[2]);
    assert("--dir"@[2] != "--format"@[2]);
    assert("--limit"@[2] != "--format"@[2]);
}

/// The keywords of a search are its arguments that do not start with `-`,
/// in order: arguments that are all keywords give a search for exactly
/// them, with the default cache, no directory, the default limit, text
/// output and no rebuild.
pub proof fn lemma_search_keywords(words: Seq<Seq<char>>)
    requires
        words.len() > 0,
        forall|k: int| 0 <= k < words.len() ==> !starts_dash(#[trigger] words[k]),
    ensures
        search_outcome(search_scan(words, 0, search_start())) == Ok::<OptionsView, Seq<char>>(OptionsView {
            command: CommandView::Search {
                query: words,
                dir: None,
                limit: DEFAULT_LIMIT as nat,
                format: OutputFormat::Text,
                rebuild: false,
            },
            cache: default_cache(),
        }),
{
    lemma_option_literals();
    lemma_scan_words(words, 0, search_start());
    assert(search_start().query + words.skip(0) =~= words);
}

proof fn lemma_scan_words(words: Seq<Seq<char>>, i: int, st: SearchScan)
    requires
        0 <= i <= words.len(),
        forall|k: int| 0 <= k < words.len() ==> !starts_dash(#[trigger] words[k]),
    ensures
        search_scan(words, i, st) == ScanEnd::Done(SearchScan { query: st.query + words.skip(i), ..st }),
    decreases words.len() - i,
{
    lemma_option_literals();
    if i < words.len() {
        let x = words[i];
        assert(!starts_dash(x));
        let next = SearchScan { cache: st.cache, dir: st.dir, limit: st.limit, format: st.format, rebuild: st.rebuild, query: st.query.push(x) };
        lemma_scan_words(words, i + 1, next);
        assert(st.query.push(x) + words.skip(i + 1) =~= st.query + words.skip(i));
    } else {
        assert(st.query + words.skip(i) =~= st.query);
    }
}

/// An argument that starts with `-` and is none of the options of a search
/// is refused, whatever follows it.
pub proof fn lemma_search_unknown_option(x: Seq<char>, rest: Seq<Seq<char>>, st: SearchScan)
    requires
        starts_dash(x),
        !is_help_flag(x),
        x != "--cache"@,
        x != "--dir"@,
        x != "--limit"@,
        x != "--format"@,
        x != "--json"@,
        x != "--text"@,
        x != "--rebuild"@,
    ensures
        search_scan(seq![x] + rest, 0, st) == ScanEnd::Fail("unknown option `"@ + x + "`"@),
{
    assert((seq![x] + rest)[0] == x);
}

/// The last setting given wins: after arguments `a` that read through, a
/// `--dir`, `--cache`, `--limit` or `--format` with a valid value replaces
/// whatever `a` set, and keeps every other setting and the keywords.
pub proof fn lemma_search_last_setting_wins(a: Seq<Seq<char>>, v: Seq<char>, st: SearchScan)
    ensures
        search_scan(a, 0, st) matches ScanEnd::Done(s1) ==> {
            &&& search_scan(a + seq!["--dir"@, v], 0, st) == ScanEnd::Done(SearchScan { dir: Some(v), ..s1 })
            &&& search_scan(a + seq!["--cache"@, v], 0, st) == ScanEnd::Done(SearchScan { cache: v, ..s1 })
            &&& (limit_spec(Some(v)) matches Ok(n) ==> search_scan(a + seq!["--limit"@, v], 0, st) == ScanEnd::Done(SearchScan { limit: n, ..s1 }))
            &&& (format_spec(Some(v)) matches Ok(f) ==> search_scan(a + seq!["--format"@, v], 0, st) == ScanEnd::Done(SearchScan { format: f, ..s1 }))
        },
{
    lemma_option_literals();
    if let ScanEnd::Done(s1) = search_scan(a, 0, st) {
        let bd = seq!["--dir"@, v];
        let bc = seq!["--cache"@, v];
        let bl = seq!["--limit"@, v];
        let bf = seq!["--format"@, v];
        lemma_search_scan_concat(a, bd, 0, st);
        lemma_search_scan_concat(a, bc, 0, st);
        lemma_search_scan_concat(a, bl, 0, st);
        lemma_search_scan_concat(a, bf, 0, st);
        assert(arg_at(bd, 1) == Some(v));
        assert(arg_at(bc, 1) == Some(v));
        assert(arg_at(bl, 1) == Some(v));
        assert(arg_at(bf, 1) == Some(v));
        assert(search_scan(bd, 2, SearchScan { dir: Some(v), ..s1 }) == ScanEnd::Done(SearchScan { dir: Some(v), ..s1 }));
        assert(search_scan(bc, 2, SearchScan { cache: v, ..s1 }) == ScanEnd::Done(SearchScan { cache: v, ..s1 }));
        if let Ok(n) = limit_spec(Some(v)) {
            assert(search_scan(bl, 2, SearchScan { limit: n, ..s1 }) == ScanEnd::Done(SearchScan { limit: n, ..s1 }));
        }
        if let Ok(f) = format_spec(Some(v)) {
            assert(search_scan(bf, 2, SearchScan { format: f, ..s1 }) == ScanEnd::Done(SearchScan { format: f, ..s1 }));
        }
    }
}

} // verus!
