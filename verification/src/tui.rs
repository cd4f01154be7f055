//! The decisions of the interactive terminal search: what a line typed by
//! the user asks for.
use vstd::prelude::*;

use crate::text::{chars_eq, chars_of, split_whitespace_strings, string_of, trim, trim_chars, words};

verus! {

/// What a line typed in the interactive search asks for.
#[derive(Debug, PartialEq, Eq)]
pub enum TuiAction {
    Empty,
    Quit,
    Help,
    Clear,
    Rebuild,
    Search(String),
}

pub open spec fn is_quit(t: Seq<char>) -> bool {
    t == ":q"@ || t == ":quit"@ || t == "quit"@ || t == "exit"@
}

pub open spec fn is_help(t: Seq<char>) -> bool {
    t == ":h"@ || t == ":help"@ || t == "help"@
}

pub open spec fn is_clear(t: Seq<char>) -> bool {
    t == ":c"@ || t == ":clear"@ || t == "clear"@
}

pub open spec fn is_rebuild(t: Seq<char>) -> bool {
    t == ":r"@ || t == ":rebuild"@ || t == "rebuild"@
}

/// The action of a line: its text without surrounding white space is a
/// command word, or else a search for that text.
pub open spec fn action_of(input: Seq<char>, a: TuiAction) -> bool {
    let t = trim(input);
    if t.len() == 0 {
        a == TuiAction::Empty
    } else if is_quit(t) {
        a == TuiAction::Quit
    } else if is_help(t) {
        a == TuiAction::Help
    } else if is_clear(t) {
        a == TuiAction::Clear
    } else if is_rebuild(t) {
        a == TuiAction::Rebuild
    } else {
        a matches TuiAction::Search(q) && q@ == t
    }
}

fn same(s: &[char], lit: &str) -> (r: bool)
    ensures
        r == (s@ == lit@),
{
    let b = chars_of(lit);
    chars_eq(s, b.as_slice())
}

/// Reads a line typed by the user.
pub fn parse_action(input: &str) -> (r: TuiAction)
    ensures
        action_of(input@, r),
{
    let cs = chars_of(input);
    let t = trim_chars(cs.as_slice());
    let ts = t.as_slice();
    if t.len() == 0 {
        TuiAction::Empty
    } else if same(ts, ":q") || same(ts, ":quit") || same(ts, "quit") || same(ts, "exit") {
        TuiAction::Quit
    } else if same(ts, ":h") || same(ts, ":help") || same(ts, "help") {
        TuiAction::Help
    } else if same(ts, ":c") || same(ts, ":clear") || same(ts, "clear") {
        TuiAction::Clear
    } else if same(ts, ":r") || same(ts, ":rebuild") || same(ts, "rebuild") {
        TuiAction::Rebuild
    } else {
        TuiAction::Search(string_of(ts))
    }
}

/// The words of a query, split at white space.
pub fn split_query(query: &str) -> (r: Vec<String>)
    ensures
        r.deep_view() == words(query@),
{
    split_whitespace_strings(query)
}

} // verus!
