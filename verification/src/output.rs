//! How search results are written out.
use vstd::prelude::*;

use crate::index::json::{json_text, quoted, Json};
use crate::index::storage::{
    append_chars, json_strings, key_file_name, key_modified, key_tags, key_title, quoted_chars,
    string_array_text,
};
use crate::text::{chars_of, decimal, decimal_chars, decimal_string, string_of};

verus! {

/// Plain text for a terminal, or JSON.
#[derive(Debug, Clone, Copy, PartialEq, Eq, Structural)]
pub enum OutputFormat {
    Text,
    Json,
}

/// One search result as it is written out; the score is already written
/// as text.
#[derive(Debug, Clone)]
pub struct ResultRecord {
    pub file_path: String,
    pub file_name: String,
    pub title: String,
    pub tags: Vec<String>,
    pub modified: u64,
    pub section: String,
    pub score: String,
    pub matched_terms: Vec<String>,
    pub snippet: String,
    pub marked_snippet: String,
}

pub open spec fn key_file_path() -> Seq<char> { seq!['f', 'i', 'l', 'e', '_', 'p', 'a', 't', 'h'] }
pub open spec fn key_section() -> Seq<char> { seq!['s', 'e', 'c', 't', 'i', 'o', 'n'] }
pub open spec fn key_score() -> Seq<char> { seq!['s', 'c', 'o', 'r', 'e'] }
pub open spec fn key_matched_terms() -> Seq<char> { seq!['m', 'a', 't', 'c', 'h', 'e', 'd', '_', 't', 'e', 'r', 'm', 's'] }
pub open spec fn key_snippet() -> Seq<char> { seq!['s', 'n', 'i', 'p', 'p', 'e', 't'] }
pub open spec fn key_highlighted_snippet() -> Seq<char> {
    seq!['h', 'i', 'g', 'h', 'l', 'i', 'g', 'h', 't', 'e', 'd', '_', 's', 'n', 'i', 'p', 'p', 'e', 't']
}

/// `"key":` followed by the text of a value.
pub open spec fn member(key: Seq<char>, value_text: Seq<char>) -> Seq<char> {
    seq!['"'] + key + seq!['"', ':'] + value_text
}

pub open spec fn strings_text(v: Seq<Seq<char>>) -> Seq<char> {
    json_text(Json::Arr(json_strings(v)))
}

/// The JSON object written for a result.
pub open spec fn record_text(r: ResultRecord) -> Seq<char> {
    seq!['{'] + member(key_file_path(), quoted(r.file_path@)) + seq![',']
        + member(key_file_name(), quoted(r.file_name@)) + seq![',']
        + member(key_title(), quoted(r.title@)) + seq![',']
        + member(key_tags(), strings_text(r.tags.deep_view())) + seq![',']
        + member(key_modified(), decimal(r.modified as nat)) + seq![',']
        + member(key_section(), quoted(r.section@)) + seq![',']
        + member(key_score(), r.score@) + seq![',']
        + member(key_matched_terms(), strings_text(r.matched_terms.deep_view())) + seq![',']
        + member(key_snippet(), quoted(r.snippet@)) + seq![',']
        + member(key_highlighted_snippet(), quoted(r.marked_snippet@)) + seq!['}']
}

/// The records, separated by `,`.
pub open spec fn records_text(rs: Seq<ResultRecord>) -> Seq<char>
    decreases rs.len(),
{
    if rs.len() == 0 {
        Seq::empty()
    } else if rs.len() == 1 {
        record_text(rs[0])
    } else {
        records_text(rs.drop_last()) + seq![','] + record_text(rs.last())
    }
}

/// Appends `"key":` and the text of a value.
fn push_member_text(out: &mut Vec<char>, key: &[char], value_text: &[char])
    ensures
        final(out)@ == old(out)@ + member(key@, value_text@),
{
    out.push('"');
    append_chars(out, key);
    out.push('"');
    out.push(':');
    append_chars(out, value_text);
    assert(final(out)@ =~= old(out)@ + member(key@, value_text@));
}

/// Appends `"key":` and `value` as a JSON string.
fn push_json_field(output: &mut Vec<char>, key: &[char], value: &str)
    ensures
        final(output)@ == old(output)@ + member(key@, quoted(value@)),
{
    let cs = chars_of(value);
    let text = quoted_chars(cs.as_slice());
    push_member_text(output, key, text.as_slice());
}

/// The JSON object of one result.
fn record_chars(result: &ResultRecord) -> (r: Vec<char>)
    ensures
        r@ == record_text(*result),
{
    let k_file_path: Vec<char> = vec!['f', 'i', 'l', 'e', '_', 'p', 'a', 't', 'h'];
    let k_file_name: Vec<char> = vec!['f', 'i', 'l', 'e', '_', 'n', 'a', 'm', 'e'];
    let k_title: Vec<char> = vec!['t', 'i', 't', 'l', 'e'];
    let k_tags: Vec<char> = vec!['t', 'a', 'g', 's'];
    let k_modified: Vec<char> = vec!['m', 'o', 'd', 'i', 'f', 'i', 'e', 'd'];
    let k_section: Vec<char> = vec!['s', 'e', 'c', 't', 'i', 'o', 'n'];
    let k_score: Vec<char> = vec!['s', 'c', 'o', 'r', 'e'];
    let k_matched: Vec<char> = vec!['m', 'a', 't', 'c', 'h', 'e', 'd', '_', 't', 'e', 'r', 'm', 's'];
    let k_snippet: Vec<char> = vec!['s', 'n', 'i', 'p', 'p', 'e', 't'];
    let k_highlighted: Vec<char> = vec!['h', 'i', 'g', 'h', 'l', 'i', 'g', 'h', 't', 'e', 'd', '_', 's', 'n', 'i', 'p', 'p', 'e', 't'];
    proof {
        assert(k_file_path@ =~= key_file_path());
        assert(k_file_name@ =~= key_file_name());
        assert(k_title@ =~= key_title());
        assert(k_tags@ =~= key_tags());
        assert(k_modified@ =~= key_modified());
        assert(k_section@ =~= key_section());
        assert(k_score@ =~= key_score());
        assert(k_matched@ =~= key_matched_terms());
        assert(k_snippet@ =~= key_snippet());
        assert(k_highlighted@ =~= key_highlighted_snippet());
    }
    let mut out: Vec<char> = vec!['{'];
    push_json_field(&mut out, k_file_path.as_slice(), result.file_path.as_str());
    out.push(',');
    push_json_field(&mut out, k_file_name.as_slice(), result.file_name.as_str());
    out.push(',');
    push_json_field(&mut out, k_title.as_slice(), result.title.as_str());
    out.push(',');
    let tags = string_array_text(&result.tags);
    push_member_text(&mut out, k_tags.as_slice(), tags.as_slice());
    out.push(',');
    let modified = decimal_chars(result.modified);
    push_member_text(&mut out, k_modified.as_slice(), modified.as_slice());
    out.push(',');
    push_json_field(&mut out, k_section.as_slice(), result.section.as_str());
    out.push(',');
    let score = chars_of(result.score.as_str());
    push_member_text(&mut out, k_score.as_slice(), score.as_slice());
    out.push(',');
    let matched = string_array_text(&result.matched_terms);
    push_member_text(&mut out, k_matched.as_slice(), matched.as_slice());
    out.push(',');
    push_json_field(&mut out, k_snippet.as_slice(), result.snippet.as_str());
    out.push(',');
    push_json_field(&mut out, k_highlighted.as_slice(), result.marked_snippet.as_str());
    out.push('}');
    assert(out@ =~= record_text(*result));
    out
}

/// The results as a JSON array of objects.
pub fn results_to_json(results: &[ResultRecord]) -> (r: String)
    ensures
        r@ == seq!['['] + records_text(results@) + seq![']'],
{
    let mut out: Vec<char> = vec!['['];
    let mut i: usize = 0;
    assert(results@.take(0) =~= Seq::<ResultRecord>::empty());
    while i < results.len()
        invariant
            0 <= i <= results@.len(),
            out@ == seq!['['] + records_text(results@.take(i as int)),
        decreases results.len() - i,
    {
        let ghost before = out@;
        if i > 0 {
            out.push(',');
        }
        let text = record_chars(&results[i]);
        append_chars(&mut out, text.as_slice());
        proof {
            let t = results@.take(i + 1);
            assert(t.drop_last() =~= results@.take(i as int));
            assert(t.last() == results@[i as int]);
            if i == 0 {
                assert(t.len() == 1);
            }
            assert(out@ =~= seq!['['] + records_text(t));
        }
        i += 1;
    }
    out.push(']');
    assert(results@.take(i as int) =~= results@);
    string_of(out.as_slice())
}

/// A modification time for display: the seconds since the epoch, or
/// `unknown` when it is not known (zero).
pub fn format_unix_time(seconds: u64) -> (r: String)
    ensures
        r@ == (if seconds == 0 { "unknown"@ } else { decimal(seconds as nat) }),
{
    if seconds == 0 {
        "unknown".to_owned()
    } else {
        decimal_string(seconds)
    }
}

} // verus!
