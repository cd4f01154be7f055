//! The document cache: one JSON object per line, a metadata record first
//! and then one record per document.
use vstd::prelude::*;

use crate::error::{AppError, AppResult};
use crate::index::json::{
    cache_error, cache_error3, cache_error_then, complete_value, fits, lemma_json_round_trip, lemma_json_text_no_control,
    lemma_json_view_array,
    lemma_json_view_object, JsonParser,
    escape, escape_char, json_text, json_view, json_views, member_views, members_text,
    items_text, push_escaped, quoted, Json, JsonValue,
};
use crate::ingest::parser::{section_view, sections_view, SectionView};
use crate::model::{Document, Section};
use crate::text::{
    chars_eq, chars_of, decimal, decimal_chars, is_control, string_of, trim, trim_chars, trim_end_by, trim_start_by,
    TrimPattern,
};

verus! {

/// The version written in and required of the metadata record.
pub const CACHE_VERSION: u64 = 1;

/// `value` escaped for a JSON string literal (without the quotes).
pub fn escape_json(value: &str) -> (r: String)
    ensures
        r@ == escape(value@),
{
    let cs = chars_of(value);
    let mut out: Vec<char> = Vec::new();
    push_escaped(&mut out, cs.as_slice());
    assert(out@ =~= escape(cs@));
    string_of(out.as_slice())
}

pub open spec fn key_type() -> Seq<char> { seq!['t', 'y', 'p', 'e'] }
pub open spec fn key_path() -> Seq<char> { seq!['p', 'a', 't', 'h'] }
pub open spec fn key_file_name() -> Seq<char> { seq!['f', 'i', 'l', 'e', '_', 'n', 'a', 'm', 'e'] }
pub open spec fn key_title() -> Seq<char> { seq!['t', 'i', 't', 'l', 'e'] }
pub open spec fn key_modified() -> Seq<char> { seq!['m', 'o', 'd', 'i', 'f', 'i', 'e', 'd'] }
pub open spec fn key_headings() -> Seq<char> { seq!['h', 'e', 'a', 'd', 'i', 'n', 'g', 's'] }
pub open spec fn key_tags() -> Seq<char> { seq!['t', 'a', 'g', 's'] }
pub open spec fn key_body() -> Seq<char> { seq!['b', 'o', 'd', 'y'] }
pub open spec fn key_sections() -> Seq<char> { seq!['s', 'e', 'c', 't', 'i', 'o', 'n', 's'] }
pub open spec fn key_heading() -> Seq<char> { seq!['h', 'e', 'a', 'd', 'i', 'n', 'g'] }
pub open spec fn key_level() -> Seq<char> { seq!['l', 'e', 'v', 'e', 'l'] }
pub open spec fn key_version() -> Seq<char> { seq!['v', 'e', 'r', 's', 'i', 'o', 'n'] }
pub open spec fn key_root() -> Seq<char> { seq!['r', 'o', 'o', 't'] }
pub open spec fn key_documents() -> Seq<char> { seq!['d', 'o', 'c', 'u', 'm', 'e', 'n', 't', 's'] }
pub open spec fn kind_doc() -> Seq<char> { seq!['d', 'o', 'c'] }
pub open spec fn kind_meta() -> Seq<char> { seq!['m', 'e', 't', 'a'] }

/// Texts as JSON strings.
pub open spec fn json_strings(v: Seq<Seq<char>>) -> Seq<Json> {
    v.map_values(|t: Seq<char>| Json::Str(t))
}

/// A section as a JSON object.
pub open spec fn section_json(s: SectionView) -> Json {
    Json::Obj(seq![
        (key_heading(), Json::Str(s.heading)),
        (key_level(), Json::Num(s.level as nat)),
        (key_body(), Json::Str(s.body)),
    ])
}

/// Sections as JSON objects.
pub open spec fn sections_json(v: Seq<SectionView>) -> Seq<Json> {
    v.map_values(|s: SectionView| section_json(s))
}

/// A document as text, without its position.
pub struct DocView {
    pub path: Seq<char>,
    pub file_name: Seq<char>,
    pub title: Seq<char>,
    pub headings: Seq<Seq<char>>,
    pub tags: Seq<Seq<char>>,
    pub modified: nat,
    pub body: Seq<char>,
    pub sections: Seq<SectionView>,
}

pub open spec fn doc_view(d: Document) -> DocView {
    DocView {
        path: d.path@,
        file_name: d.file_name@,
        title: d.title@,
        headings: d.headings.deep_view(),
        tags: d.tags.deep_view(),
        modified: d.modified as nat,
        body: d.body@,
        sections: sections_view(d.sections@),
    }
}

/// The members of a document's cache record, in the order written.
pub open spec fn doc_members(d: DocView) -> Seq<(Seq<char>, Json)> {
    seq![
        (key_type(), Json::Str(kind_doc())),
        (key_path(), Json::Str(d.path)),
        (key_file_name(), Json::Str(d.file_name)),
        (key_title(), Json::Str(d.title)),
        (key_modified(), Json::Num(d.modified)),
        (key_headings(), Json::Arr(json_strings(d.headings))),
        (key_tags(), Json::Arr(json_strings(d.tags))),
        (key_body(), Json::Str(d.body)),
        (key_sections(), Json::Arr(sections_json(d.sections))),
    ]
}

/// The cache record of a document.
pub open spec fn doc_json(d: DocView) -> Json {
    Json::Obj(doc_members(d))
}

/// The metadata record of a cache.
pub open spec fn meta_json(root: Seq<char>, count: nat) -> Json {
    Json::Obj(seq![
        (key_type(), Json::Str(kind_meta())),
        (key_version(), Json::Num(CACHE_VERSION as nat)),
        (key_root(), Json::Str(root)),
        (key_documents(), Json::Num(count)),
    ])
}

/// Keys are written as they are: they hold only lower-case letters and `_`.
pub open spec fn plain_key(k: Seq<char>) -> bool {
    forall|i: int| 0 <= i < k.len() ==> (('a' <= #[trigger] k[i] && k[i] <= 'z') || k[i] == '_')
}

pub proof fn lemma_escape_plain(k: Seq<char>)
    requires
        plain_key(k),
    ensures
        escape(k) == k,
    decreases k.len(),
{
    if k.len() > 0 {
        assert(plain_key(k.drop_last()));
        lemma_escape_plain(k.drop_last());
        let c = k.last();
        assert(('a' <= c && c <= 'z') || c == '_');
        assert(escape_char(c) == seq![c]);
        assert(k =~= k.drop_last().push(c));
    }
}

/// `"` + escape of `cs` + `"`.
pub(crate) fn quoted_chars(cs: &[char]) -> (r: Vec<char>)
    ensures
        r@ == quoted(cs@),
{
    let mut out: Vec<char> = vec!['"'];
    push_escaped(&mut out, cs);
    out.push('"');
    assert(out@ =~= quoted(cs@));
    out
}

pub(crate) fn append_chars(out: &mut Vec<char>, cs: &[char])
    ensures
        final(out)@ == old(out)@ + cs@,
{
    let mut i: usize = 0;
    let ghost start = out@;
    while i < cs.len()
        invariant
            0 <= i <= cs@.len(),
            out@ == start + cs@.take(i as int),
        decreases cs.len() - i,
    {
        out.push(cs[i]);
        assert(cs@.take(i + 1) =~= cs@.take(i as int).push(cs@[i as int]));
        i += 1;
    }
    assert(cs@.take(i as int) =~= cs@);
}

/// Appends the `i`-th member of an object whose text so far holds the
/// members before it.
fn push_member(out: &mut Vec<char>, Ghost(ms): Ghost<Seq<(Seq<char>, Json)>>, i: usize, key: &[char], value_text: &[char])
    requires
        i < ms.len(),
        old(out)@ == seq!['{'] + members_text(ms.take(i as int)),
        ms[i as int].0 == key@,
        plain_key(key@),
        json_text(ms[i as int].1) == value_text@,
    ensures
        final(out)@ == seq!['{'] + members_text(ms.take(i + 1)),
{
    let ghost start = out@;
    if i > 0 {
        out.push(',');
    }
    out.push('"');
    append_chars(out, key);
    out.push('"');
    out.push(':');
    append_chars(out, value_text);
    proof {
        lemma_escape_plain(key@);
        let t = ms.take(i + 1);
        assert(t.drop_last() =~= ms.take(i as int));
        assert(t.last() == ms[i as int]);
        if i == 0 {
            assert(t.len() == 1);
            assert(members_text(t) == quoted(key@) + seq![':'] + value_text@);
        }
        assert(out@ =~= seq!['{'] + members_text(t));
    }
}

/// Appends the `i`-th item of an array whose text so far holds the items
/// before it.
fn push_item(out: &mut Vec<char>, Ghost(items): Ghost<Seq<Json>>, i: usize, value_text: &[char])
    requires
        i < items.len(),
        old(out)@ == seq!['['] + items_text(items.take(i as int)),
        json_text(items[i as int]) == value_text@,
    ensures
        final(out)@ == seq!['['] + items_text(items.take(i + 1)),
{
    if i > 0 {
        out.push(',');
    }
    append_chars(out, value_text);
    proof {
        let t = items.take(i + 1);
        assert(t.drop_last() =~= items.take(i as int));
        assert(t.last() == items[i as int]);
        assert(out@ =~= seq!['['] + items_text(t));
    }
}

/// The JSON text of an array of strings.
pub(crate) fn string_array_text(values: &Vec<String>) -> (r: Vec<char>)
    ensures
        r@ == json_text(Json::Arr(json_strings(values.deep_view()))),
{
    let ghost items = json_strings(values.deep_view());
    let mut out: Vec<char> = vec!['['];
    assert(items.take(0) =~= Seq::<Json>::empty());
    assert(out@ =~= seq!['['] + items_text(items.take(0)));
    let mut i: usize = 0;
    while i < values.len()
        invariant
            0 <= i <= values@.len(),
            items == json_strings(values.deep_view()),
            out@ == seq!['['] + items_text(items.take(i as int)),
        decreases values.len() - i,
    {
        let cs = chars_of(values[i].as_str());
        let text = quoted_chars(cs.as_slice());
        assert(items[i as int] == Json::Str(values.deep_view()[i as int]));
        push_item(&mut out, Ghost(items), i, text.as_slice());
        i += 1;
    }
    out.push(']');
    assert(items.take(i as int) =~= items);
    out
}

/// The JSON text of a section.
fn section_text(section: &Section) -> (r: Vec<char>)
    ensures
        r@ == json_text(section_json(section_view(*section))),
{
    let ghost ms = seq![
        (key_heading(), Json::Str(section.heading@)),
        (key_level(), Json::Num(section.level as nat)),
        (key_body(), Json::Str(section.body@)),
    ];
    let mut out: Vec<char> = vec!['{'];
    assert(ms.take(0) =~= Seq::<(Seq<char>, Json)>::empty());
    assert(out@ =~= seq!['{'] + members_text(ms.take(0)));
    let k_heading: Vec<char> = vec!['h', 'e', 'a', 'd', 'i', 'n', 'g'];
    let k_level: Vec<char> = vec!['l', 'e', 'v', 'e', 'l'];
    let k_body: Vec<char> = vec!['b', 'o', 'd', 'y'];
    assert(k_heading@ =~= key_heading());
    assert(k_level@ =~= key_level());
    assert(k_body@ =~= key_body());
    let heading = quoted_chars(chars_of(section.heading.as_str()).as_slice());
    push_member(&mut out, Ghost(ms), 0, k_heading.as_slice(), heading.as_slice());
    let level = decimal_chars(section.level as u64);
    push_member(&mut out, Ghost(ms), 1, k_level.as_slice(), level.as_slice());
    let body = quoted_chars(chars_of(section.body.as_str()).as_slice());
    push_member(&mut out, Ghost(ms), 2, k_body.as_slice(), body.as_slice());
    out.push('}');
    assert(ms.take(3) =~= ms);
    out
}

/// The cache record of one document, as one line of JSON.
pub fn document_to_json(document: &Document) -> (r: String)
    ensures
        r@ == json_text(doc_json(doc_view(*document))),
{
    let ghost d = doc_view(*document);
    let ghost ms = doc_members(d);
    let mut out: Vec<char> = vec!['{'];
    assert(ms.take(0) =~= Seq::<(Seq<char>, Json)>::empty());
    assert(out@ =~= seq!['{'] + members_text(ms.take(0)));
    let k_type: Vec<char> = vec!['t', 'y', 'p', 'e'];
    let k_path: Vec<char> = vec!['p', 'a', 't', 'h'];
    let k_file_name: Vec<char> = vec!['f', 'i', 'l', 'e', '_', 'n', 'a', 'm', 'e'];
    let k_title: Vec<char> = vec!['t', 'i', 't', 'l', 'e'];
    let k_modified: Vec<char> = vec!['m', 'o', 'd', 'i', 'f', 'i', 'e', 'd'];
    let k_headings: Vec<char> = vec!['h', 'e', 'a', 'd', 'i', 'n', 'g', 's'];
    let k_tags: Vec<char> = vec!['t', 'a', 'g', 's'];
    let k_body: Vec<char> = vec!['b', 'o', 'd', 'y'];
    let k_sections: Vec<char> = vec!['s', 'e', 'c', 't', 'i', 'o', 'n', 's'];
    let v_doc: Vec<char> = vec!['d', 'o', 'c'];
    proof {
        assert(k_type@ =~= key_type());
        assert(k_path@ =~= key_path());
        assert(k_file_name@ =~= key_file_name());
        assert(k_title@ =~= key_title());
        assert(k_modified@ =~= key_modified());
        assert(k_headings@ =~= key_headings());
        assert(k_tags@ =~= key_tags());
        assert(k_body@ =~= key_body());
        assert(k_sections@ =~= key_sections());
        assert(v_doc@ =~= kind_doc());
    }
    let t = quoted_chars(v_doc.as_slice());
    push_member(&mut out, Ghost(ms), 0, k_type.as_slice(), t.as_slice());
    let t = quoted_chars(chars_of(document.path.as_str()).as_slice());
    push_member(&mut out, Ghost(ms), 1, k_path.as_slice(), t.as_slice());
    let t = quoted_chars(chars_of(document.file_name.as_str()).as_slice());
    push_member(&mut out, Ghost(ms), 2, k_file_name.as_slice(), t.as_slice());
    let t = quoted_chars(chars_of(document.title.as_str()).as_slice());
    push_member(&mut out, Ghost(ms), 3, k_title.as_slice(), t.as_slice());
    let t = decimal_chars(document.modified);
    push_member(&mut out, Ghost(ms), 4, k_modified.as_slice(), t.as_slice());
    let t = string_array_text(&document.headings);
    push_member(&mut out, Ghost(ms), 5, k_headings.as_slice(), t.as_slice());
    let t = string_array_text(&document.tags);
    push_member(&mut out, Ghost(ms), 6, k_tags.as_slice(), t.as_slice());
    let t = quoted_chars(chars_of(document.body.as_str()).as_slice());
    push_member(&mut out, Ghost(ms), 7, k_body.as_slice(), t.as_slice());
    // The sections.
    let ghost items = sections_json(d.sections);
    let mut arr: Vec<char> = vec!['['];
    assert(items.take(0) =~= Seq::<Json>::empty());
    assert(arr@ =~= seq!['['] + items_text(items.take(0)));
    let mut i: usize = 0;
    while i < document.sections.len()
        invariant
            0 <= i <= document.sections@.len(),
            d == doc_view(*document),
            items == sections_json(d.sections),
            arr@ == seq!['['] + items_text(items.take(i as int)),
        decreases document.sections.len() - i,
    {
        let text = section_text(&document.sections[i]);
        assert(items[i as int] == section_json(section_view(document.sections@[i as int])));
        push_item(&mut arr, Ghost(items), i, text.as_slice());
        i += 1;
    }
    arr.push(']');
    assert(items.take(i as int) =~= items);
    assert(arr@ =~= seq!['['] + items_text(items) + seq![']']);
    assert(ms[8].1 == Json::Arr(items));
    assert(json_text(Json::Arr(items)) == seq!['['] + items_text(items) + seq![']']);
    push_member(&mut out, Ghost(ms), 8, k_sections.as_slice(), arr.as_slice());
    out.push('}');
    assert(ms.take(9) =~= ms);
    string_of(out.as_slice())
}


/// The metadata record written first in a cache.
pub fn meta_line(root: &str, count: usize) -> (r: String)
    ensures
        r@ == json_text(meta_json(root@, count as nat)),
{
    let ghost ms = seq![
        (key_type(), Json::Str(kind_meta())),
        (key_version(), Json::Num(CACHE_VERSION as nat)),
        (key_root(), Json::Str(root@)),
        (key_documents(), Json::Num(count as nat)),
    ];
    let mut out: Vec<char> = vec!['{'];
    assert(ms.take(0) =~= Seq::<(Seq<char>, Json)>::empty());
    assert(out@ =~= seq!['{'] + members_text(ms.take(0)));
    let k_type: Vec<char> = vec!['t', 'y', 'p', 'e'];
    let k_version: Vec<char> = vec!['v', 'e', 'r', 's', 'i', 'o', 'n'];
    let k_root: Vec<char> = vec!['r', 'o', 'o', 't'];
    let k_documents: Vec<char> = vec!['d', 'o', 'c', 'u', 'm', 'e', 'n', 't', 's'];
    let v_meta: Vec<char> = vec!['m', 'e', 't', 'a'];
    proof {
        assert(k_type@ =~= key_type());
        assert(k_version@ =~= key_version());
        assert(k_root@ =~= key_root());
        assert(k_documents@ =~= key_documents());
        assert(v_meta@ =~= kind_meta());
    }
    let t = quoted_chars(v_meta.as_slice());
    push_member(&mut out, Ghost(ms), 0, k_type.as_slice(), t.as_slice());
    let t = decimal_chars(CACHE_VERSION);
    push_member(&mut out, Ghost(ms), 1, k_version.as_slice(), t.as_slice());
    let t = quoted_chars(chars_of(root).as_slice());
    push_member(&mut out, Ghost(ms), 2, k_root.as_slice(), t.as_slice());
    let t = decimal_chars(count as u64);
    push_member(&mut out, Ghost(ms), 3, k_documents.as_slice(), t.as_slice());
    out.push('}');
    assert(ms.take(4) =~= ms);
    string_of(out.as_slice())
}

/// The lines of a cache file: the metadata record, then one record per
/// document, in order.
pub fn cache_lines(root: &str, documents: &[Document]) -> (r: Vec<String>)
    ensures
        r.deep_view() == cache_text(root@, doc_views(documents@)),
{
    let mut out: Vec<String> = Vec::new();
    out.push(meta_line(root, documents.len()));
    let mut i: usize = 0;
    while i < documents.len()
        invariant
            0 <= i <= documents@.len(),
            out@.len() == i + 1,
            out@[0]@ == json_text(meta_json(root@, documents@.len() as nat)),
            forall|k: int| 0 <= k < i ==> (#[trigger] out@[k + 1])@ == json_text(doc_json(doc_view(documents@[k]))),
        decreases documents.len() - i,
    {
        out.push(document_to_json(&documents[i]));
        i += 1;
    }
    let ghost ds = doc_views(documents@);
    assert(out.deep_view() =~= cache_text(root@, ds)) by {
        assert forall|k: int| 0 <= k < out.deep_view().len() implies out.deep_view()[k] == cache_text(root@, ds)[k] by {
            if k > 0 {
                assert(out@[(k - 1) + 1]@ == json_text(doc_json(doc_view(documents@[k - 1]))));
            }
        }
    }
    out
}

// ---------------------------------------------------------------------------
// Reading

/// The value of the last member named `key`, as `BTreeMap::get` gives it.
pub open spec fn obj_get(ms: Seq<(Seq<char>, Json)>, key: Seq<char>) -> Option<Json>
    decreases ms.len(),
{
    if ms.len() == 0 {
        None
    } else if ms.last().0 == key {
        Some(ms.last().1)
    } else {
        obj_get(ms.drop_last(), key)
    }
}

/// The texts of an array made only of strings.
pub open spec fn strs_of(xs: Seq<Json>) -> Option<Seq<Seq<char>>>
    decreases xs.len(),
{
    if xs.len() == 0 {
        Some(Seq::empty())
    } else {
        match (strs_of(xs.drop_last()), xs.last()) {
            (Some(ts), Json::Str(t)) => Some(ts.push(t)),
            _ => None,
        }
    }
}

pub open spec fn missing_message(key: Seq<char>) -> Seq<char> {
    "cache is missing field `"@ + key + "`"@
}

/// The text of field `key`, or why it cannot be read.
pub open spec fn str_field(ms: Seq<(Seq<char>, Json)>, key: Seq<char>) -> Result<Seq<char>, Seq<char>> {
    match obj_get(ms, key) {
        None => Err(missing_message(key)),
        Some(Json::Str(t)) => Ok(t),
        Some(_) => Err("cache field `"@ + key + "` is not a string"@),
    }
}

/// The number of field `key`, or why it cannot be read.
pub open spec fn num_field(ms: Seq<(Seq<char>, Json)>, key: Seq<char>) -> Result<nat, Seq<char>> {
    match obj_get(ms, key) {
        None => Err(missing_message(key)),
        Some(Json::Num(n)) => Ok(n),
        Some(_) => Err("cache field `"@ + key + "` is not a number"@),
    }
}

/// The items of array field `key`, or why it cannot be read.
pub open spec fn arr_field(ms: Seq<(Seq<char>, Json)>, key: Seq<char>) -> Result<Seq<Json>, Seq<char>> {
    match obj_get(ms, key) {
        None => Err(missing_message(key)),
        Some(Json::Arr(xs)) => Ok(xs),
        Some(_) => Err("cache field `"@ + key + "` is not an array"@),
    }
}

/// The texts of array field `key`, or why it cannot be read.
pub open spec fn strs_field(ms: Seq<(Seq<char>, Json)>, key: Seq<char>) -> Result<Seq<Seq<char>>, Seq<char>> {
    match arr_field(ms, key) {
        Err(m) => Err(m),
        Ok(xs) => match strs_of(xs) {
            Some(ts) => Ok(ts),
            None => Err("cache array `"@ + key + "` contains a non-string value"@),
        },
    }
}

/// A section read back from its record, or why it cannot be.
pub open spec fn section_read(j: Json) -> Result<SectionView, Seq<char>> {
    match j {
        Json::Obj(ms) => match num_field(ms, key_level()) {
            Err(m) => Err(m),
            Ok(l) => if l > 255 {
                Err("invalid section level "@ + decimal(l))
            } else {
                match str_field(ms, key_heading()) {
                    Err(m) => Err(m),
                    Ok(h) => match str_field(ms, key_body()) {
                        Err(m) => Err(m),
                        Ok(b) => Ok(SectionView { heading: h, level: l as u8, body: b }),
                    },
                }
            },
        },
        _ => Err("section entry is not an object"@),
    }
}

/// Sections read back in order; the first that cannot be read decides.
pub open spec fn sections_read(xs: Seq<Json>) -> Result<Seq<SectionView>, Seq<char>>
    decreases xs.len(),
{
    if xs.len() == 0 {
        Ok(Seq::empty())
    } else {
        match sections_read(xs.drop_last()) {
            Err(m) => Err(m),
            Ok(ss) => match section_read(xs.last()) {
                Err(m) => Err(m),
                Ok(s) => Ok(ss.push(s)),
            },
        }
    }
}

/// A document read back from the members of its record, or why it cannot
/// be: fields are read in the order sections, path, file name, title,
/// headings, tags, modification time, body.
pub open spec fn doc_read(ms: Seq<(Seq<char>, Json)>) -> Result<DocView, Seq<char>> {
    match arr_field(ms, key_sections()) {
        Err(m) => Err(m),
        Ok(xs) => match sections_read(xs) {
            Err(m) => Err(m),
            Ok(sections) => match str_field(ms, key_path()) {
                Err(m) => Err(m),
                Ok(path) => match str_field(ms, key_file_name()) {
                    Err(m) => Err(m),
                    Ok(file_name) => match str_field(ms, key_title()) {
                        Err(m) => Err(m),
                        Ok(title) => match strs_field(ms, key_headings()) {
                            Err(m) => Err(m),
                            Ok(headings) => match strs_field(ms, key_tags()) {
                                Err(m) => Err(m),
                                Ok(tags) => match num_field(ms, key_modified()) {
                                    Err(m) => Err(m),
                                    Ok(modified) => match str_field(ms, key_body()) {
                                        Err(m) => Err(m),
                                        Ok(body) => Ok(DocView { path, file_name, title, headings, tags, modified, body, sections }),
                                    },
                                },
                            },
                        },
                    },
                },
            },
        },
    }
}

/// Position of the last member named `key`.
fn find_member(object: &Vec<(String, JsonValue)>, key: &[char]) -> (r: Option<usize>)
    ensures
        match r {
            Some(i) => i < object@.len() && obj_get(member_views(object@), key@) == Some(json_view(object@[i as int].1)),
            None => obj_get(member_views(object@), key@) is None,
        },
{
    let ghost ms = member_views(object@);
    let mut i = object.len();
    assert(ms.take(i as int) =~= ms);
    while i > 0
        invariant
            0 <= i <= object@.len(),
            ms == member_views(object@),
            obj_get(ms, key@) == obj_get(ms.take(i as int), key@),
        decreases i,
    {
        let name = chars_of(object[i - 1].0.as_str());
        assert(ms.take(i as int).last() == ms[i - 1]);
        assert(ms.take(i as int).drop_last() =~= ms.take(i - 1));
        if chars_eq(name.as_slice(), key) {
            return Some(i - 1);
        }
        i -= 1;
    }
    assert(ms.take(0) =~= Seq::<(Seq<char>, Json)>::empty());
    None
}

fn missing_field(key: &[char]) -> (r: AppError)
    ensures
        r matches AppError::Cache(m) && m@ == missing_message(key@),
{
    cache_error3("cache is missing field `", key, "`")
}

fn string_field(object: &Vec<(String, JsonValue)>, key: &[char]) -> (r: AppResult<String>)
    ensures
        match str_field(member_views(object@), key@) {
            Ok(t) => r matches Ok(x) && x@ == t,
            Err(m) => r matches Err(AppError::Cache(e)) && e@ == m,
        },
{
    match find_member(object, key) {
        Some(i) => match &object[i].1 {
            JsonValue::String(value) => Ok(value.clone()),
            _ => Err(cache_error3("cache field `", key, "` is not a string")),
        },
        None => Err(missing_field(key)),
    }
}

fn number_field(object: &Vec<(String, JsonValue)>, key: &[char]) -> (r: AppResult<u64>)
    ensures
        match num_field(member_views(object@), key@) {
            Ok(n) => r matches Ok(x) && x as nat == n,
            Err(m) => r matches Err(AppError::Cache(e)) && e@ == m,
        },
{
    match find_member(object, key) {
        Some(i) => match &object[i].1 {
            JsonValue::Number(value) => Ok(*value),
            _ => Err(cache_error3("cache field `", key, "` is not a number")),
        },
        None => Err(missing_field(key)),
    }
}

fn array_field<'a>(object: &'a Vec<(String, JsonValue)>, key: &[char]) -> (r: AppResult<&'a Vec<JsonValue>>)
    ensures
        match arr_field(member_views(object@), key@) {
            Ok(xs) => r matches Ok(v) && json_views(v@) == xs,
            Err(m) => r matches Err(AppError::Cache(e)) && e@ == m,
        },
{
    match find_member(object, key) {
        Some(i) => match &object[i].1 {
            JsonValue::Array(items) => {
                proof {
                    lemma_json_view_array(*items);
                }
                Ok(items)
            },
            _ => Err(cache_error3("cache field `", key, "` is not an array")),
        },
        None => Err(missing_field(key)),
    }
}

fn string_array_field(object: &Vec<(String, JsonValue)>, key: &[char]) -> (r: AppResult<Vec<String>>)
    ensures
        match strs_field(member_views(object@), key@) {
            Ok(ts) => r matches Ok(v) && v.deep_view() == ts,
            Err(m) => r matches Err(AppError::Cache(e)) && e@ == m,
        },
{
    let items = array_field(object, key)?;
    let ghost xs = json_views(items@);
    assert(arr_field(member_views(object@), key@) == Ok::<Seq<Json>, Seq<char>>(xs));
    let mut out: Vec<String> = Vec::new();
    let mut i: usize = 0;
    assert(xs.take(0) =~= Seq::<Json>::empty());
    assert(out.deep_view() =~= Seq::<Seq<char>>::empty());
    while i < items.len()
        invariant
            0 <= i <= items@.len(),
            xs == json_views(items@),
            arr_field(member_views(object@), key@) == Ok::<Seq<Json>, Seq<char>>(xs),
            strs_of(xs.take(i as int)) == Some(out.deep_view()),
        decreases items.len() - i,
    {
        assert(xs.take(i + 1).drop_last() =~= xs.take(i as int));
        assert(xs.take(i + 1).last() == json_view(items@[i as int]));
        match &items[i] {
            JsonValue::String(value) => {
                let ghost before = out.deep_view();
                out.push(value.clone());
                assert(out.deep_view() =~= before.push(value@));
            },
            _ => {
                proof {
                    assert(!(json_view(items@[i as int]) is Str));
                    assert(strs_of(xs.take(i + 1)) is None);
                    lemma_strs_of_prefix(xs, i + 1);
                }
                return Err(cache_error3("cache array `", key, "` contains a non-string value"));
            },
        }
        i += 1;
    }
    assert(xs.take(i as int) =~= xs);
    Ok(out)
}

/// A list with a non-string among its first `n` items is not a list of strings.
proof fn lemma_strs_of_prefix(xs: Seq<Json>, n: int)
    requires
        0 <= n <= xs.len(),
        strs_of(xs.take(n)) is None,
    ensures
        strs_of(xs) is None,
    decreases xs.len() - n,
{
    if n < xs.len() {
        assert(xs.take(n + 1).drop_last() =~= xs.take(n));
        lemma_strs_of_prefix(xs, n + 1);
    } else {
        assert(xs.take(n) =~= xs);
    }
}

proof fn lemma_sections_read_prefix(xs: Seq<Json>, n: int)
    requires
        0 <= n <= xs.len(),
        sections_read(xs.take(n)) is Err,
    ensures
        sections_read(xs) == sections_read(xs.take(n)),
    decreases xs.len() - n,
{
    if n < xs.len() {
        assert(xs.take(n + 1).drop_last() =~= xs.take(n));
        lemma_sections_read_prefix(xs, n + 1);
    } else {
        assert(xs.take(n) =~= xs);
    }
}

fn section_from_value(value: &JsonValue) -> (r: AppResult<Section>)
    ensures
        match section_read(json_view(*value)) {
            Ok(s) => r matches Ok(x) && section_view(x) == s,
            Err(m) => r matches Err(AppError::Cache(e)) && e@ == m,
        },
{
    match value {
        JsonValue::Object(object) => {
            proof {
                lemma_json_view_object(*object);
            }
            let k_level: Vec<char> = vec!['l', 'e', 'v', 'e', 'l'];
            let k_heading: Vec<char> = vec!['h', 'e', 'a', 'd', 'i', 'n', 'g'];
            let k_body: Vec<char> = vec!['b', 'o', 'd', 'y'];
            assert(k_level@ =~= key_level());
            assert(k_heading@ =~= key_heading());
            assert(k_body@ =~= key_body());
            let level = number_field(object, k_level.as_slice())?;
            if level > 255 {
                let digits = decimal_chars(level);
                return Err(cache_error_then("invalid section level ", digits.as_slice()));
            }
            let heading = string_field(object, k_heading.as_slice())?;
            let body = string_field(object, k_body.as_slice())?;
            Ok(Section { heading, level: level as u8, body })
        },
        _ => Err(cache_error("section entry is not an object")),
    }
}

/// Reads a document back from the members of its record; its `id` is 0.
pub fn document_from_object(object: &Vec<(String, JsonValue)>) -> (r: AppResult<Document>)
    ensures
        match doc_read(member_views(object@)) {
            Ok(d) => r matches Ok(x) && doc_view(x) == d && x.id == 0,
            Err(m) => r matches Err(AppError::Cache(e)) && e@ == m,
        },
{
    let k_sections: Vec<char> = vec!['s', 'e', 'c', 't', 'i', 'o', 'n', 's'];
    let k_path: Vec<char> = vec!['p', 'a', 't', 'h'];
    let k_file_name: Vec<char> = vec!['f', 'i', 'l', 'e', '_', 'n', 'a', 'm', 'e'];
    let k_title: Vec<char> = vec!['t', 'i', 't', 'l', 'e'];
    let k_headings: Vec<char> = vec!['h', 'e', 'a', 'd', 'i', 'n', 'g', 's'];
    let k_tags: Vec<char> = vec!['t', 'a', 'g', 's'];
    let k_modified: Vec<char> = vec!['m', 'o', 'd', 'i', 'f', 'i', 'e', 'd'];
    let k_body: Vec<char> = vec!['b', 'o', 'd', 'y'];
    proof {
        assert(k_sections@ =~= key_sections());
        assert(k_path@ =~= key_path());
        assert(k_file_name@ =~= key_file_name());
        assert(k_title@ =~= key_title());
        assert(k_headings@ =~= key_headings());
        assert(k_tags@ =~= key_tags());
        assert(k_modified@ =~= key_modified());
        assert(k_body@ =~= key_body());
    }
    let items = array_field(object, k_sections.as_slice())?;
    let ghost xs = json_views(items@);
    assert(arr_field(member_views(object@), key_sections()) == Ok::<Seq<Json>, Seq<char>>(xs));
    let mut sections: Vec<Section> = Vec::new();
    let mut i: usize = 0;
    assert(xs.take(0) =~= Seq::<Json>::empty());
    assert(sections_view(sections@) =~= Seq::<SectionView>::empty());
    while i < items.len()
        invariant
            0 <= i <= items@.len(),
            xs == json_views(items@),
            arr_field(member_views(object@), key_sections()) == Ok::<Seq<Json>, Seq<char>>(xs),
            sections_read(xs.take(i as int)) == Ok::<Seq<SectionView>, Seq<char>>(sections_view(sections@)),
        decreases items.len() - i,
    {
        assert(xs.take(i + 1).drop_last() =~= xs.take(i as int));
        assert(xs.take(i + 1).last() == json_view(items@[i as int]));
        match section_from_value(&items[i]) {
            Ok(section) => {
                let ghost before = sections@;
                sections.push(section);
                assert(sections_view(sections@) =~= sections_view(before).push(section_view(section)));
            },
            Err(e) => {
                proof {
                    assert(section_read(xs.take(i + 1).last()) is Err);
                    assert(sections_read(xs.take(i + 1)) is Err);
                    lemma_sections_read_prefix(xs, i + 1);
                }
                return Err(e);
            },
        }
        i += 1;
    }
    assert(xs.take(i as int) =~= xs);
    let path = string_field(object, k_path.as_slice())?;
    let file_name = string_field(object, k_file_name.as_slice())?;
    let title = string_field(object, k_title.as_slice())?;
    let headings = string_array_field(object, k_headings.as_slice())?;
    let tags = string_array_field(object, k_tags.as_slice())?;
    let modified = number_field(object, k_modified.as_slice())?;
    let body = string_field(object, k_body.as_slice())?;
    Ok(Document { id: 0, path, file_name, title, headings, tags, modified, body, sections })
}


/// Why a cache cannot be read.
pub enum CacheFailure {
    /// A line is not one JSON value; the message says where.
    Syntax(Seq<char>),
    /// A line (counted from 1) holds a JSON value that is not an object.
    NotObject(nat),
    /// A record lacks a field or has one of the wrong kind; the message
    /// says which.
    Field(Seq<char>),
    /// The metadata record names another version.
    Version(nat),
    /// A record is neither metadata nor a document.
    RecordType(Seq<char>),
    /// No metadata record was found.
    MissingMeta,
}

/// What reading the cache has found after some lines: the documents and
/// whether metadata was seen, or why reading failed; `number` counts the
/// line from 1.
pub open spec fn cache_step(st: Result<(Seq<DocView>, bool), CacheFailure>, line: Seq<char>, number: nat) -> Result<(Seq<DocView>, bool), CacheFailure> {
    match st {
        Err(f) => Err(f),
        Ok((docs, saw_meta)) => if trim(line).len() == 0 {
            Ok((docs, saw_meta))
        } else {
            match complete_value(line) {
                Err(m) => Err(CacheFailure::Syntax(m)),
                Ok(Json::Obj(ms)) => match str_field(ms, key_type()) {
                    Err(m) => Err(CacheFailure::Field(m)),
                    Ok(t) => if t == kind_meta() {
                        match num_field(ms, key_version()) {
                            Err(m) => Err(CacheFailure::Field(m)),
                            Ok(v) => if v == CACHE_VERSION as nat {
                                Ok((docs, true))
                            } else {
                                Err(CacheFailure::Version(v))
                            },
                        }
                    } else if t != kind_doc() {
                        Err(CacheFailure::RecordType(t))
                    } else {
                        match doc_read(ms) {
                            Err(m) => Err(CacheFailure::Field(m)),
                            Ok(d) => Ok((docs.push(d), saw_meta)),
                        }
                    },
                },
                Ok(_) => Err(CacheFailure::NotObject(number)),
            }
        },
    }
}

pub open spec fn cache_fold(lines: Seq<Seq<char>>) -> Result<(Seq<DocView>, bool), CacheFailure>
    decreases lines.len(),
{
    if lines.len() == 0 {
        Ok((Seq::empty(), false))
    } else {
        cache_step(cache_fold(lines.drop_last()), lines.last(), lines.len())
    }
}

/// The documents of a cache file given by its lines, or why it cannot be read.
pub open spec fn cache_documents(lines: Seq<Seq<char>>) -> Result<Seq<DocView>, CacheFailure> {
    match cache_fold(lines) {
        Ok((docs, true)) => Ok(docs),
        Ok((_, false)) => Err(CacheFailure::MissingMeta),
        Err(f) => Err(f),
    }
}

pub open spec fn version_message(v: nat) -> Seq<char> {
    "unsupported cache version "@ + decimal(v) + "; expected 1"@
}

pub open spec fn record_type_message(t: Seq<char>) -> Seq<char> {
    "unsupported cache record type `"@ + t + "`"@
}

pub open spec fn missing_meta_message() -> Seq<char> {
    "cache metadata is missing; rebuild the index"@
}

pub open spec fn not_object_message(number: nat) -> Seq<char> {
    "cache line "@ + decimal(number) + " is not a JSON object"@
}

/// The message a failure is reported with.
pub open spec fn failure_message(f: CacheFailure) -> Seq<char> {
    match f {
        CacheFailure::Syntax(m) => m,
        CacheFailure::Version(v) => version_message(v),
        CacheFailure::RecordType(t) => record_type_message(t),
        CacheFailure::MissingMeta => missing_meta_message(),
        CacheFailure::NotObject(n) => not_object_message(n),
        CacheFailure::Field(m) => m,
    }
}

/// Checks the version field of a metadata record.
fn validate_cache_version(object: &Vec<(String, JsonValue)>) -> (r: AppResult<()>)
    ensures
        match num_field(member_views(object@), key_version()) {
            Ok(v) => if v == CACHE_VERSION as nat {
                r is Ok
            } else {
                r matches Err(AppError::Cache(m)) && m@ == version_message(v)
            },
            Err(m) => r matches Err(AppError::Cache(e)) && e@ == m,
        },
{
    let k_version: Vec<char> = vec!['v', 'e', 'r', 's', 'i', 'o', 'n'];
    assert(k_version@ =~= key_version());
    let version = number_field(object, k_version.as_slice())?;
    if version == CACHE_VERSION {
        Ok(())
    } else {
        let digits = decimal_chars(version);
        Err(cache_error3("unsupported cache version ", digits.as_slice(), "; expected 1"))
    }
}

proof fn lemma_fold_error(lv: Seq<Seq<char>>, n: int)
    requires
        0 <= n <= lv.len(),
        cache_fold(lv.take(n)) is Err,
    ensures
        cache_fold(lv) == cache_fold(lv.take(n)),
    decreases lv.len() - n,
{
    if n < lv.len() {
        assert(lv.take(n + 1).drop_last() =~= lv.take(n));
        lemma_fold_error(lv, n + 1);
    } else {
        assert(lv.take(n) =~= lv);
    }
}

/// Reads the documents of a cache file given by its lines; documents are
/// numbered in the order read.
pub fn parse_cache_lines(lines: &[String]) -> (r: AppResult<Vec<Document>>)
    ensures
        match cache_documents(lines.deep_view()) {
            Ok(ds) => r matches Ok(v) && v@.len() == ds.len() && forall|i: int| 0 <= i < ds.len() ==> doc_view(#[trigger] v@[i]) == ds[i] && v@[i].id == i,
            Err(f) => r matches Err(AppError::Cache(m)) && m@ == failure_message(f),
        },
{
    let ghost lv = lines.deep_view();
    let mut documents: Vec<Document> = Vec::new();
    let mut saw_meta = false;
    let k_type: Vec<char> = vec!['t', 'y', 'p', 'e'];
    let v_meta: Vec<char> = vec!['m', 'e', 't', 'a'];
    let v_doc: Vec<char> = vec!['d', 'o', 'c'];
    proof {
        assert(k_type@ =~= key_type());
        assert(v_meta@ =~= kind_meta());
        assert(v_doc@ =~= kind_doc());
        assert(lv.take(0) =~= Seq::<Seq<char>>::empty());
    }
    let mut k: usize = 0;
    while k < lines.len()
        invariant
            0 <= k <= lines@.len(),
            lv == lines.deep_view(),
            k_type@ == key_type(),
            v_meta@ == kind_meta(),
            v_doc@ == kind_doc(),
            cache_fold(lv.take(k as int)) matches Ok((ds, saw)) && saw == saw_meta && ds.len() == documents@.len()
                && forall|i: int| 0 <= i < ds.len() ==> doc_view(#[trigger] documents@[i]) == ds[i] && documents@[i].id == i,
        decreases lines.len() - k,
    {
        let ghost prev = cache_fold(lv.take(k as int));
        proof {
            assert(lv.take(k + 1).drop_last() =~= lv.take(k as int));
            assert(lv.take(k + 1).last() == lines@[k as int]@);
        }
        let line = &lines[k];
        let cs = chars_of(line.as_str());
        let trimmed = trim_chars(cs.as_slice());
        if trimmed.len() > 0 {
            let mut parser = JsonParser::new(line.as_str());
            let value = match parser.parse_complete() {
                Ok(v) => v,
                Err(e) => {
                    proof {
                        lemma_fold_error(lv, k + 1);
                    }
                    return Err(e);
                },
            };
            match value {
                JsonValue::Object(members) => {
                    proof {
                        lemma_json_view_object(members);
                    }
                    let object_type = match string_field(&members, k_type.as_slice()) {
                        Ok(t) => t,
                        Err(e) => {
                            proof {
                                lemma_fold_error(lv, k + 1);
                            }
                            return Err(e);
                        },
                    };
                    let tc = chars_of(object_type.as_str());
                    if chars_eq(tc.as_slice(), v_meta.as_slice()) {
                        match validate_cache_version(&members) {
                            Ok(()) => {
                                saw_meta = true;
                            },
                            Err(e) => {
                                proof {
                                    lemma_fold_error(lv, k + 1);
                                }
                                return Err(e);
                            },
                        }
                    } else if !chars_eq(tc.as_slice(), v_doc.as_slice()) {
                        proof {
                            lemma_fold_error(lv, k + 1);
                        }
                        return Err(cache_error3("unsupported cache record type `", tc.as_slice(), "`"));
                    } else {
                        let mut document = match document_from_object(&members) {
                            Ok(d) => d,
                            Err(e) => {
                                proof {
                                    lemma_fold_error(lv, k + 1);
                                }
                                return Err(e);
                            },
                        };
                        document.id = documents.len();
                        let ghost before = documents@;
                        documents.push(document);
                        proof {
                            let ds = prev->Ok_0.0;
                            assert forall|i: int| 0 <= i < documents@.len() implies doc_view(#[trigger] documents@[i]) == ds.push(doc_view(document))[i] && documents@[i].id == i by {
                                if i < before.len() {
                                    assert(documents@[i] == before[i]);
                                }
                            }
                        }
                    }
                },
                _ => {
                    proof {
                        assert(!(json_view(value) is Obj));
                        assert(lv.take(k + 1).len() == k + 1);
                        lemma_fold_error(lv, k + 1);
                    }
                    let digits = decimal_chars((k + 1) as u64);
                    return Err(cache_error3("cache line ", digits.as_slice(), " is not a JSON object"));
                },
            }
        }
        k += 1;
    }
    assert(lv.take(k as int) =~= lv);
    if saw_meta {
        Ok(documents)
    } else {
        Err(cache_error("cache metadata is missing; rebuild the index"))
    }
}

// ---------------------------------------------------------------------------
// Reading back a written cache

/// The documents as text, without their positions.
pub open spec fn doc_views(ds: Seq<Document>) -> Seq<DocView> {
    ds.map_values(|d: Document| doc_view(d))
}

/// The lines of a cache written for `docs` scanned from `root`: the
/// metadata record, then one record per document.
pub open spec fn cache_text(root: Seq<char>, docs: Seq<DocView>) -> Seq<Seq<char>> {
    seq![json_text(meta_json(root, docs.len()))] + docs.map_values(|d: DocView| json_text(doc_json(d)))
}

proof fn lemma_strs_round_trip(v: Seq<Seq<char>>)
    ensures
        strs_of(json_strings(v)) == Some(v),
        forall|i: int| 0 <= i < json_strings(v).len() ==> fits(#[trigger] json_strings(v)[i]),
    decreases v.len(),
{
    if v.len() > 0 {
        lemma_strs_round_trip(v.drop_last());
        assert(json_strings(v).drop_last() =~= json_strings(v.drop_last()));
        assert(v.drop_last().push(v.last()) =~= v);
    } else {
        assert(json_strings(v) =~= Seq::<Json>::empty());
    }
}

proof fn lemma_section_round_trip(s: SectionView)
    ensures
        section_read(section_json(s)) == Ok::<SectionView, Seq<char>>(s),
        fits(section_json(s)),
{
    let ms = seq![
        (key_heading(), Json::Str(s.heading)),
        (key_level(), Json::Num(s.level as nat)),
        (key_body(), Json::Str(s.body)),
    ];
    assert(section_json(s) == Json::Obj(ms));
    assert(key_body() != key_level()) by {
        assert(key_body().len() != key_level().len());
    }
    assert(key_body() != key_heading()) by {
        assert(key_body().len() != key_heading().len());
    }
    assert(key_level() != key_heading()) by {
        assert(key_level().len() != key_heading().len());
    }
    reveal_with_fuel(obj_get, 4);
    assert(ms.drop_last() =~= seq![ms[0], ms[1]]);
    assert(ms.drop_last().drop_last() =~= seq![ms[0]]);
    assert(ms.drop_last().drop_last().drop_last() =~= Seq::<(Seq<char>, Json)>::empty());
    assert(obj_get(ms, key_level()) == Some(Json::Num(s.level as nat)));
    assert(obj_get(ms, key_heading()) == Some(Json::Str(s.heading)));
    assert(obj_get(ms, key_body()) == Some(Json::Str(s.body)));
    assert forall|i: int| 0 <= i < ms.len() implies fits(#[trigger] ms[i].1) by {}
}

proof fn lemma_sections_round_trip(ss: Seq<SectionView>)
    ensures
        sections_read(sections_json(ss)) == Ok::<Seq<SectionView>, Seq<char>>(ss),
        forall|i: int| 0 <= i < sections_json(ss).len() ==> fits(#[trigger] sections_json(ss)[i]),
    decreases ss.len(),
{
    if ss.len() > 0 {
        lemma_sections_round_trip(ss.drop_last());
        assert(sections_json(ss).drop_last() =~= sections_json(ss.drop_last()));
        assert(sections_json(ss).last() == section_json(ss.last()));
        lemma_section_round_trip(ss.last());
        assert(ss.drop_last().push(ss.last()) =~= ss);
        assert(sections_read(sections_json(ss)) == Ok::<Seq<SectionView>, Seq<char>>(ss.drop_last().push(ss.last())));
        assert forall|i: int| 0 <= i < sections_json(ss).len() implies fits(#[trigger] sections_json(ss)[i]) by {
            lemma_section_round_trip(ss[i]);
        }
    } else {
        assert(sections_json(ss) =~= Seq::<Json>::empty());
        assert(ss =~= Seq::<SectionView>::empty());
    }
}

/// The keys of a document record differ from one another.
proof fn lemma_doc_keys_differ()
    ensures
        key_type() != key_path(),
        key_type() != key_file_name(),
        key_type() != key_title(),
        key_type() != key_modified(),
        key_type() != key_headings(),
        key_type() != key_tags(),
        key_type() != key_body(),
        key_type() != key_sections(),
        key_path() != key_file_name(),
        key_path() != key_title(),
        key_path() != key_modified(),
        key_path() != key_headings(),
        key_path() != key_tags(),
        key_path() != key_body(),
        key_path() != key_sections(),
        key_file_name() != key_title(),
        key_file_name() != key_modified(),
        key_file_name() != key_headings(),
        key_file_name() != key_tags(),
        key_file_name() != key_body(),
        key_file_name() != key_sections(),
        key_title() != key_modified(),
        key_title() != key_headings(),
        key_title() != key_tags(),
        key_title() != key_body(),
        key_title() != key_sections(),
        key_modified() != key_headings(),
        key_modified() != key_tags(),
        key_modified() != key_body(),
        key_modified() != key_sections(),
        key_headings() != key_tags(),
        key_headings() != key_body(),
        key_headings() != key_sections(),
        key_tags() != key_body(),
        key_tags() != key_sections(),
        key_body() != key_sections(),
        key_type() != key_version(),
        key_type() != key_root(),
        key_type() != key_documents(),
        key_version() != key_root(),
        key_version() != key_documents(),
        kind_doc() != kind_meta(),
{
    assert(key_type()[0] != key_path()[0]);
    assert(key_type()[0] != key_tags()[1]);
    assert(key_type()[0] != key_body()[0]);
    assert(key_type()[0] != key_root()[0]);
    assert(key_path()[0] != key_tags()[0]);
    assert(key_path()[0] != key_body()[0]);
    assert(key_tags()[0] != key_body()[0]);
    assert(key_type()[1] != key_tags()[1]);
    assert(key_file_name()[0] != key_documents()[0]);
    assert(key_headings()[0] != key_sections()[0]);
    assert(key_modified()[0] != key_headings()[0]);
    assert(key_modified()[0] != key_sections()[0]);
}

/// The member at `i`, when no later member has its key, is what `obj_get` finds.
proof fn lemma_obj_get_at(ms: Seq<(Seq<char>, Json)>, i: int)
    requires
        0 <= i < ms.len(),
        forall|j: int| i < j < ms.len() ==> (#[trigger] ms[j]).0 != ms[i].0,
    ensures
        obj_get(ms, ms[i].0) == Some(ms[i].1),
    decreases ms.len(),
{
    if i < ms.len() - 1 {
        assert(ms.drop_last()[i] == ms[i]);
        assert forall|j: int| i < j < ms.drop_last().len() implies (#[trigger] ms.drop_last()[j]).0 != ms.drop_last()[i].0 by {
            assert(ms.drop_last()[j] == ms[j]);
        }
        lemma_obj_get_at(ms.drop_last(), i);
    }
}

proof fn lemma_doc_fits(d: DocView)
    requires
        d.modified <= u64::MAX,
    ensures
        fits(doc_json(d)),
{
    let ms = doc_members(d);
    lemma_strs_round_trip(d.headings);
    lemma_strs_round_trip(d.tags);
    lemma_sections_round_trip(d.sections);
    assert forall|i: int| 0 <= i < ms.len() implies fits(#[trigger] ms[i].1) by {
        if i == 5 {
            assert(ms[i].1 == Json::Arr(json_strings(d.headings)));
        } else if i == 6 {
            assert(ms[i].1 == Json::Arr(json_strings(d.tags)));
        } else if i == 8 {
            assert(ms[i].1 == Json::Arr(sections_json(d.sections)));
        }
    }
}

proof fn lemma_doc_round_trip(d: DocView)
    requires
        d.modified <= u64::MAX,
    ensures
        doc_read(doc_members(d)) == Ok::<DocView, Seq<char>>(d),
        fits(doc_json(d)),
        obj_get(doc_members(d), key_type()) == Some(Json::Str(kind_doc())),
{
    let ms = doc_members(d);
    lemma_doc_keys_differ();
    lemma_strs_round_trip(d.headings);
    lemma_strs_round_trip(d.tags);
    lemma_sections_round_trip(d.sections);
    lemma_doc_fits(d);
    lemma_obj_get_at(ms, 8);
    lemma_obj_get_at(ms, 7);
    lemma_obj_get_at(ms, 6);
    lemma_obj_get_at(ms, 5);
    lemma_obj_get_at(ms, 4);
    lemma_obj_get_at(ms, 3);
    lemma_obj_get_at(ms, 2);
    lemma_obj_get_at(ms, 1);
    lemma_obj_get_at(ms, 0);
}

proof fn lemma_meta_round_trip(root: Seq<char>, n: nat)
    requires
        n <= u64::MAX,
    ensures
        fits(meta_json(root, n)),
        meta_json(root, n) matches Json::Obj(ms) && obj_get(ms, key_type()) == Some(Json::Str(kind_meta()))
            && obj_get(ms, key_version()) == Some(Json::Num(CACHE_VERSION as nat)),
{
    let ms = seq![
        (key_type(), Json::Str(kind_meta())),
        (key_version(), Json::Num(CACHE_VERSION as nat)),
        (key_root(), Json::Str(root)),
        (key_documents(), Json::Num(n)),
    ];
    assert(meta_json(root, n) == Json::Obj(ms));
    lemma_doc_keys_differ();
    reveal_with_fuel(obj_get, 5);
    assert(ms.drop_last() =~= seq![ms[0], ms[1], ms[2]]);
    assert(ms.drop_last().drop_last() =~= seq![ms[0], ms[1]]);
    assert(ms.drop_last().drop_last().drop_last() =~= seq![ms[0]]);
    assert(obj_get(ms, key_version()) == Some(Json::Num(CACHE_VERSION as nat)));
    assert(obj_get(ms, key_type()) == Some(Json::Str(kind_meta())));
    assert forall|i: int| 0 <= i < ms.len() implies fits(#[trigger] ms[i].1) by {}
}

/// The text of an object is not blank.
proof fn lemma_object_line(ms: Seq<(Seq<char>, Json)>)
    ensures
        trim(json_text(Json::Obj(ms))).len() > 0,
{
    let line = json_text(Json::Obj(ms));
    assert(line[0] == '{');
    assert(line.last() == '}');
    assert(trim_start_by(line, TrimPattern::Whitespace) == line);
    assert(trim_end_by(line, TrimPattern::Whitespace) == line);
}

/// What reading a written cache has found after its metadata and its first
/// `k` documents.
/// The metadata line of a written cache is read as metadata.
proof fn lemma_meta_step(root: Seq<char>, n: nat)
    requires
        n <= u64::MAX,
    ensures
        cache_step(Ok((Seq::<DocView>::empty(), false)), json_text(meta_json(root, n)), 1)
            == Ok::<(Seq<DocView>, bool), CacheFailure>((Seq::<DocView>::empty(), true)),
{
    let meta = json_text(meta_json(root, n));
    lemma_meta_round_trip(root, n);
    lemma_json_round_trip(meta_json(root, n));
    let ms = meta_json(root, n)->Obj_0;
    lemma_object_line(ms);
    assert(complete_value(meta) == Ok::<Json, Seq<char>>(Json::Obj(ms)));
    assert(str_field(ms, key_type()) == Ok::<Seq<char>, Seq<char>>(kind_meta()));
}

/// A document line of a written cache is read as that document.
proof fn lemma_doc_step(d: DocView, acc: Seq<DocView>, number: nat)
    requires
        d.modified <= u64::MAX,
    ensures
        cache_step(Ok((acc, true)), json_text(doc_json(d)), number)
            == Ok::<(Seq<DocView>, bool), CacheFailure>((acc.push(d), true)),
{
    let line = json_text(doc_json(d));
    lemma_doc_round_trip(d);
    lemma_json_round_trip(doc_json(d));
    lemma_object_line(doc_members(d));
    lemma_doc_keys_differ();
    assert(complete_value(line) == Ok::<Json, Seq<char>>(Json::Obj(doc_members(d))));
    assert(str_field(doc_members(d), key_type()) == Ok::<Seq<char>, Seq<char>>(kind_doc()));
}

/// What reading a written cache has found after its metadata and its first
/// `k` documents.
proof fn lemma_cache_fold_prefix(root: Seq<char>, docs: Seq<DocView>, k: int)
    requires
        docs.len() <= u64::MAX,
        forall|i: int| 0 <= i < docs.len() ==> (#[trigger] docs[i]).modified <= u64::MAX,
        0 <= k <= docs.len(),
    ensures
        cache_fold(cache_text(root, docs).take(k + 1)) == Ok::<(Seq<DocView>, bool), CacheFailure>((docs.take(k), true)),
    decreases k,
{
    let lines = cache_text(root, docs);
    if k == 0 {
        assert(lines.take(1).drop_last() =~= Seq::<Seq<char>>::empty());
        assert(lines.take(1).last() == json_text(meta_json(root, docs.len())));
        assert(docs.take(0) =~= Seq::<DocView>::empty());
        lemma_meta_step(root, docs.len());
        assert(cache_fold(lines.take(1)) == cache_step(cache_fold(lines.take(1).drop_last()), lines.take(1).last(), 1));
    } else {
        lemma_cache_fold_prefix(root, docs, k - 1);
        let d = docs[k - 1];
        assert(lines.take(k + 1).drop_last() =~= lines.take(k));
        assert(lines.take(k + 1).last() == json_text(doc_json(d)));
        assert(docs.take(k - 1).push(d) =~= docs.take(k));
        lemma_doc_step(d, docs.take(k - 1), (k + 1) as nat);
        assert(cache_fold(lines.take(k + 1)) == cache_step(cache_fold(lines.take(k)), json_text(doc_json(d)), (k + 1) as nat));
    }
}

/// A cache written for some documents reads back as the same documents, in
/// the same order.
pub proof fn lemma_cache_round_trip(root: Seq<char>, docs: Seq<Document>)
    requires
        docs.len() <= usize::MAX,
    ensures
        cache_documents(cache_text(root, doc_views(docs))) == Ok::<Seq<DocView>, CacheFailure>(doc_views(docs)),
{
    let ds = doc_views(docs);
    assert forall|i: int| 0 <= i < ds.len() implies (#[trigger] ds[i]).modified <= u64::MAX by {
        assert(ds[i] == doc_view(docs[i]));
    }
    lemma_cache_fold_prefix(root, ds, ds.len() as int);
    assert(cache_text(root, ds).take(ds.len() as int + 1) =~= cache_text(root, ds));
    assert(ds.take(ds.len() as int) =~= ds);
}

/// A line without control characters (line breaks among them).
pub open spec fn plain_line(l: Seq<char>) -> bool {
    forall|k: int| 0 <= k < l.len() ==> !is_control(#[trigger] l[k])
}

/// Every line of a written cache is free of line breaks and other control
/// characters, so each record is read back from a line of its own.
pub proof fn lemma_cache_lines_plain(root: Seq<char>, docs: Seq<DocView>)
    ensures
        forall|i: int| 0 <= i < cache_text(root, docs).len() ==> plain_line(#[trigger] cache_text(root, docs)[i]),
{
    let lines = cache_text(root, docs);
    assert forall|i: int| 0 <= i < lines.len() implies plain_line(#[trigger] lines[i]) by {
        if i == 0 {
            lemma_json_text_no_control(meta_json(root, docs.len()));
        } else {
            assert(lines[i] == json_text(doc_json(docs[i - 1])));
            lemma_json_text_no_control(doc_json(docs[i - 1]));
        }
    }
}

/// A document written as a cache record reads back as the same document,
/// its position aside: the record is one JSON object on a line of its own,
/// its type is `doc`, and `document_from_object` gives the document back
/// with `id` 0.
pub proof fn lemma_document_round_trip(d: Document)
    ensures
        complete_value(json_text(doc_json(doc_view(d)))) == Ok::<Json, Seq<char>>(doc_json(doc_view(d))),
        plain_line(json_text(doc_json(doc_view(d)))),
        str_field(doc_members(doc_view(d)), key_type()) == Ok::<Seq<char>, Seq<char>>(kind_doc()),
        doc_read(doc_members(doc_view(d))) == Ok::<DocView, Seq<char>>(doc_view(d)),
{
    let v = doc_view(d);
    lemma_doc_round_trip(v);
    lemma_json_round_trip(doc_json(v));
    lemma_json_text_no_control(doc_json(v));
}

} // verus!
