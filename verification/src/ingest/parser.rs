//! Reads a Markdown or plain-text note: title, headings, tags (from front
//! matter, `title:`/`tags:` lines and inline `#tags`) and sections.
use vstd::prelude::*;

use crate::model::{Document, Section};
use crate::text::{
    chars_of, lines, lines_of, rows, sorted_unique, strictly_sorted,
    ascii_lower_chars, ascii_lower_seq, char_is_alphanumeric, chars_eq, chars_start_with,
    count_leading, find_char, find_char_from, leading_count, lemma_find_char, remove_char,
    remove_char_all, split_tag_list, starts_with, string_of, sub_chars, trim, trim_by,
    trim_chars, trim_chars_by, trim_end_by, trim_end_index, trim_start_by, trim_start_index,
    ascii_lower, lemma_trim_by, unicode_alphanumeric, unicode_whitespace, TrimPattern,
};

verus! {

/// Whether a trimmed line opens or closes a fenced code block.
pub open spec fn is_fence(line: Seq<char>) -> bool {
    starts_with(line, seq!['`', '`', '`']) || starts_with(line, seq!['~', '~', '~'])
}

fn is_code_fence(line: &[char]) -> (r: bool)
    ensures
        r == is_fence(line@),
{
    let ticks: Vec<char> = vec!['`', '`', '`'];
    let tildes: Vec<char> = vec!['~', '~', '~'];
    proof {
        assert(ticks@ =~= seq!['`', '`', '`']);
        assert(tildes@ =~= seq!['~', '~', '~']);
    }
    chars_start_with(line, ticks.as_slice()) || chars_start_with(line, tildes.as_slice())
}

/// `u8::is_ascii_whitespace` on a character.
pub open spec fn is_ascii_space(c: char) -> bool {
    c == ' ' || c == '\t' || c == '\n' || c == '\x0C' || c == '\r'
}

/// The level and text of a Markdown heading line (`# Title`): one to six
/// `#`, then ASCII white space, then a text that is neither empty nor a
/// lone `#`; closing `#`s are dropped.
pub open spec fn heading_of(line: Seq<char>) -> Option<(u8, Seq<char>)> {
    let h = leading_count(line, '#');
    if h == 0 || h > 6 {
        None
    } else if !(h < line.len() && is_ascii_space(line[h as int])) {
        None
    } else {
        let rest = trim(line.skip(h as int));
        if rest.len() == 0 || rest == seq!['#'] {
            None
        } else {
            Some((h as u8, trim(trim_by(rest, TrimPattern::Char('#')))))
        }
    }
}

fn parse_heading(line: &[char]) -> (r: Option<(u8, Vec<char>)>)
    ensures
        match heading_of(line@) {
            Some((level, text)) => r matches Some((l, t)) && l == level && t@ == text,
            None => r is None,
        },
{
    let hashes = count_leading(line, '#');
    if hashes == 0 || hashes > 6 {
        return None;
    }
    if !(hashes < line.len() && (line[hashes] == ' ' || line[hashes] == '\t' || line[hashes] == '\n' || line[hashes] == '\x0C' || line[hashes] == '\r')) {
        return None;
    }
    let rest = sub_chars(line, hashes, line.len());
    let heading = trim_chars(rest.as_slice());
    if heading.len() == 0 || (heading.len() == 1 && heading[0] == '#') {
        proof {
            if heading@.len() == 1 {
                assert(heading@ =~= seq!['#']);
            }
        }
        return None;
    }
    assert(heading@ != seq!['#']) by {
        if heading@.len() == 1 {
            assert(heading@[0] != '#');
        }
    }
    let inner = trim_chars_by(heading.as_slice(), TrimPattern::Char('#'));
    let text = trim_chars(inner.as_slice());
    assert(rest@ =~= line@.skip(hashes as int));
    Some((hashes as u8, text))
}

/// The value of a `key: value` line: the text after the first `:`,
/// trimmed, when the text before it is `key` up to ASCII case and space.
pub open spec fn key_value(line: Seq<char>, key: Seq<char>) -> Option<Seq<char>> {
    match find_char(line, ':') {
        Some(i) => if ascii_lower_seq(trim(line.take(i))) == ascii_lower_seq(key) {
            Some(trim(line.skip(i + 1)))
        } else {
            None
        },
        None => None,
    }
}

fn value_after_key(line: &[char], key: &[char]) -> (r: Option<Vec<char>>)
    ensures
        match key_value(line@, key@) {
            Some(v) => r matches Some(x) && x@ == v,
            None => r is None,
        },
{
    assert(line@.skip(0) =~= line@);
    match find_char_from(line, 0, ':') {
        Some(i) => {
            assert(i < line@.len());
            assert(line@.len() == line.len());
            proof {
                lemma_find_char(line@, ':');
            }
            let name = sub_chars(line, 0, i);
            let name = trim_chars(name.as_slice());
            let a = ascii_lower_chars(name.as_slice());
            let b = ascii_lower_chars(key);
            assert(line@.subrange(0, i as int) =~= line@.take(i as int));
            if chars_eq(a.as_slice(), b.as_slice()) {
                let value = sub_chars(line, i + 1, line.len());
                assert(value@ =~= line@.skip(i + 1));
                Some(trim_chars(value.as_slice()))
            } else {
                None
            }
        },
        None => None,
    }
}

/// A raw tag cleaned up: trimmed, without leading `#`, without anything
/// but letters, digits and `-` at either end, in ASCII lower case.
pub open spec fn clean_tag(raw: Seq<char>) -> Seq<char> {
    ascii_lower_seq(trim_by(trim_start_by(trim(raw), TrimPattern::Char('#')), TrimPattern::NotTagChar))
}

/// The tags a raw tag gives: its cleaned form unless that is empty.
pub open spec fn tag_out(raw: Seq<char>) -> Seq<Seq<char>> {
    if clean_tag(raw).len() > 0 {
        seq![clean_tag(raw)]
    } else {
        Seq::empty()
    }
}

fn push_tag(raw: &[char], tags: &mut Vec<String>)
    ensures
        final(tags).deep_view() == old(tags).deep_view() + tag_out(raw@),
{
    let t1 = trim_chars(raw);
    let a = trim_start_index(t1.as_slice(), 0, t1.len(), TrimPattern::Char('#'));
    let t2 = sub_chars(t1.as_slice(), a, t1.len());
    let t3 = trim_chars_by(t2.as_slice(), TrimPattern::NotTagChar);
    let tag = ascii_lower_chars(t3.as_slice());
    assert(t1@.subrange(0, t1@.len() as int) =~= t1@);
    if tag.len() > 0 {
        let ghost before = tags.deep_view();
        tags.push(string_of(tag.as_slice()));
        assert(tags.deep_view() =~= before + tag_out(raw@));
    } else {
        assert(tag_out(raw@) =~= Seq::<Seq<char>>::empty());
        assert(tags.deep_view() =~= tags.deep_view() + tag_out(raw@));
    }
}

/// Tags of several raw tags, in order.
pub open spec fn tags_of_pieces(pieces: Seq<Seq<char>>) -> Seq<Seq<char>>
    decreases pieces.len(),
{
    if pieces.len() == 0 {
        Seq::empty()
    } else {
        tags_of_pieces(pieces.drop_last()) + tag_out(pieces.last())
    }
}

/// Tags of a `tags:` value such as `[rust, "search"]` or `rust search`.
pub open spec fn tags_from_value(value: Seq<char>) -> Seq<Seq<char>> {
    tags_of_pieces(split_tag_list(remove_char(
        trim_end_by(trim_start_by(trim(value), TrimPattern::Char('[')), TrimPattern::Char(']')),
        '"',
    )))
}

fn collect_tags_from_value(value: &[char], tags: &mut Vec<String>)
    ensures
        final(tags).deep_view() == old(tags).deep_view() + tags_from_value(value@),
{
    let t = trim_chars(value);
    let a = trim_start_index(t.as_slice(), 0, t.len(), TrimPattern::Char('['));
    let b = trim_end_index(t.as_slice(), a, t.len(), TrimPattern::Char(']'));
    assert(t@.subrange(0, t@.len() as int) =~= t@);
    let inner = sub_chars(t.as_slice(), a, b);
    let cleaned = remove_char_all(inner.as_slice(), '"');
    let ghost pieces = split_tag_list(cleaned@);
    let ghost start = tags.deep_view();
    // Walk the pieces: `lo` is where the current piece begins.
    let mut lo: usize = 0;
    let mut i: usize = 0;
    proof {
        assert(cleaned@.take(0) =~= Seq::<char>::empty());
        assert(split_tag_list(cleaned@.take(0)) =~= seq![Seq::<char>::empty()]);
    }
    while i < cleaned.len()
        invariant
            0 <= lo <= i <= cleaned@.len(),
            start + tags_of_pieces(split_tag_list(cleaned@.take(i as int)).drop_last()) == tags.deep_view(),
            split_tag_list(cleaned@.take(i as int)).len() >= 1,
            split_tag_list(cleaned@.take(i as int)).last() == cleaned@.subrange(lo as int, i as int),
        decreases cleaned.len() - i,
    {
        let ghost prev = split_tag_list(cleaned@.take(i as int));
        assert(cleaned@.take(i + 1).drop_last() =~= cleaned@.take(i as int));
        if cleaned[i] == ',' || cleaned[i] == ' ' {
            let piece = sub_chars(cleaned.as_slice(), lo, i);
            push_tag(piece.as_slice(), tags);
            proof {
                let next = split_tag_list(cleaned@.take(i + 1));
                assert(next == prev.push(Seq::empty()));
                assert(next.drop_last() =~= prev);
                assert(prev =~= prev.drop_last().push(prev.last()));
                assert(tags_of_pieces(prev) == tags_of_pieces(prev.drop_last()) + tag_out(prev.last()));
                assert(cleaned@.subrange(i + 1, i + 1) =~= Seq::<char>::empty());
            }
            lo = i + 1;
        } else {
            proof {
                let next = split_tag_list(cleaned@.take(i + 1));
                assert(next.drop_last() =~= prev.drop_last());
                assert(cleaned@.subrange(lo as int, i + 1) =~= cleaned@.subrange(lo as int, i as int).push(cleaned@[i as int]));
            }
        }
        i += 1;
    }
    let piece = sub_chars(cleaned.as_slice(), lo, cleaned.len());
    push_tag(piece.as_slice(), tags);
    proof {
        assert(cleaned@.take(i as int) =~= cleaned@);
        assert(pieces =~= pieces.drop_last().push(pieces.last()));
        assert(tags_of_pieces(pieces) == tags_of_pieces(pieces.drop_last()) + tag_out(pieces.last()));
        assert(inner@ =~= trim_end_by(trim_start_by(trim(value@), TrimPattern::Char('[')), TrimPattern::Char(']')));
    }
}

/// Characters that continue an inline `#tag`.
pub open spec fn is_tag_word_char(c: char) -> bool {
    unicode_alphanumeric(c) || c == '-' || c == '_'
}

/// Length of the run of tag characters at the start of `s`.
pub open spec fn tag_word_len(s: Seq<char>) -> nat
    decreases s.len(),
{
    if s.len() > 0 && is_tag_word_char(s[0]) {
        1 + tag_word_len(s.drop_first())
    } else {
        0
    }
}

pub proof fn lemma_tag_word_len(s: Seq<char>)
    ensures
        tag_word_len(s) <= s.len(),
    decreases s.len(),
{
    if s.len() > 0 && is_tag_word_char(s[0]) {
        lemma_tag_word_len(s.drop_first());
    }
}

/// The tags written inline as `#tag` in a line, in order.
pub open spec fn inline_tags(s: Seq<char>) -> Seq<Seq<char>>
    decreases s.len(),
{
    if s.len() == 0 {
        Seq::empty()
    } else if s[0] != '#' {
        inline_tags(s.drop_first())
    } else {
        let w = tag_word_len(s.drop_first());
        proof {
            lemma_tag_word_len(s.drop_first());
        }
        tag_out(ascii_lower_seq(s.subrange(1, 1 + w as int))) + inline_tags(s.skip(1 + w as int))
    }
}

fn collect_inline_tags(line: &[char], tags: &mut Vec<String>)
    ensures
        final(tags).deep_view() == old(tags).deep_view() + inline_tags(line@),
{
    let ghost start = tags.deep_view();
    let mut i: usize = 0;
    assert(line@.skip(0) =~= line@);
    while i < line.len()
        invariant
            0 <= i <= line@.len(),
            start + inline_tags(line@) == tags.deep_view() + inline_tags(line@.skip(i as int)),
        decreases line.len() - i,
    {
        let ghost rest = line@.skip(i as int);
        if line[i] != '#' {
            assert(rest.drop_first() =~= line@.skip(i + 1));
            i += 1;
        } else {
            let mut j = i + 1;
            assert(rest.drop_first() =~= line@.skip(i + 1));
            while j < line.len() && (char_is_alphanumeric(line[j]) || line[j] == '-' || line[j] == '_')
                invariant
                    i < j <= line@.len(),
                    rest == line@.skip(i as int),
                    tag_word_len(rest.drop_first()) == (j - i - 1) + tag_word_len(line@.skip(j as int)),
                decreases line.len() - j,
            {
                assert(line@.skip(j as int).drop_first() =~= line@.skip(j + 1));
                j += 1;
            }
            assert(tag_word_len(line@.skip(j as int)) == 0);
            let word = sub_chars(line, i + 1, j);
            let lowered = ascii_lower_chars(word.as_slice());
            let ghost before = tags.deep_view();
            push_tag(lowered.as_slice(), tags);
            proof {
                assert(rest.subrange(1, 1 + (j - i - 1)) =~= word@);
                assert(rest.skip(1 + (j - i - 1)) =~= line@.skip(j as int));
                assert(inline_tags(rest) == tag_out(ascii_lower_seq(word@)) + inline_tags(line@.skip(j as int)));
                assert(before + inline_tags(rest) =~= tags.deep_view() + inline_tags(line@.skip(j as int)));
            }
            i = j;
        }
    }
    assert(line@.skip(i as int) =~= Seq::<char>::empty());
    assert(tags.deep_view() + inline_tags(line@.skip(i as int)) =~= tags.deep_view());
}

pub open spec fn title_key() -> Seq<char> {
    seq!['t', 'i', 't', 'l', 'e']
}

pub open spec fn tags_key() -> Seq<char> {
    seq!['t', 'a', 'g', 's']
}

/// A `title:` or `tags:` line outside front matter: whether it is one, and
/// the title and tags after it. A title is only taken when none is set.
pub open spec fn metadata_line(line: Seq<char>, title: Seq<char>, tags: Seq<Seq<char>>) -> (bool, Seq<char>, Seq<Seq<char>>) {
    match key_value(line, title_key()) {
        Some(v) => (true, if title.len() == 0 && v.len() > 0 {
            trim_by(v, TrimPattern::Char('"'))
        } else {
            title
        }, tags),
        None => match key_value(line, tags_key()) {
            Some(v) => (true, title, tags + tags_from_value(v)),
            None => (false, title, tags),
        },
    }
}

fn collect_metadata_line(line: &[char], title: &mut Vec<char>, tags: &mut Vec<String>) -> (r: bool)
    ensures
        (r, final(title)@, final(tags).deep_view()) == metadata_line(line@, old(title)@, old(tags).deep_view()),
{
    let title_key_chars: Vec<char> = vec!['t', 'i', 't', 'l', 'e'];
    let tags_key_chars: Vec<char> = vec!['t', 'a', 'g', 's'];
    assert(title_key_chars@ =~= title_key());
    assert(tags_key_chars@ =~= tags_key());
    if let Some(value) = value_after_key(line, title_key_chars.as_slice()) {
        if title.len() == 0 && value.len() > 0 {
            *title = trim_chars_by(value.as_slice(), TrimPattern::Char('"'));
        }
        return true;
    }
    if let Some(value) = value_after_key(line, tags_key_chars.as_slice()) {
        collect_tags_from_value(value.as_slice(), tags);
        return true;
    }
    false
}

/// A line of YAML front matter: the title and tags after it, and whether
/// a `tags:` list (`- item` lines) is open.
pub open spec fn front_matter_line(line: Seq<char>, title: Seq<char>, tags: Seq<Seq<char>>, in_list: bool) -> (Seq<char>, Seq<Seq<char>>, bool) {
    match key_value(line, title_key()) {
        Some(v) => (if title.len() == 0 && v.len() > 0 {
            trim_by(v, TrimPattern::Char('"'))
        } else {
            title
        }, tags, false),
        None => match key_value(line, tags_key()) {
            Some(v) => (title, tags + tags_from_value(v), v.len() == 0),
            None => if in_list && starts_with(line, seq!['-', ' ']) {
                (title, tags + tag_out(line.skip(2)), true)
            } else {
                (title, tags, false)
            },
        },
    }
}

fn collect_front_matter_line(line: &[char], title: &mut Vec<char>, tags: &mut Vec<String>, in_tags_list: &mut bool)
    ensures
        (final(title)@, final(tags).deep_view(), *final(in_tags_list)) == front_matter_line(line@, old(title)@, old(tags).deep_view(), *old(in_tags_list)),
{
    let title_key_chars: Vec<char> = vec!['t', 'i', 't', 'l', 'e'];
    let tags_key_chars: Vec<char> = vec!['t', 'a', 'g', 's'];
    assert(title_key_chars@ =~= title_key());
    assert(tags_key_chars@ =~= tags_key());
    if let Some(value) = value_after_key(line, title_key_chars.as_slice()) {
        if title.len() == 0 && value.len() > 0 {
            *title = trim_chars_by(value.as_slice(), TrimPattern::Char('"'));
        }
        *in_tags_list = false;
        return;
    }
    if let Some(value) = value_after_key(line, tags_key_chars.as_slice()) {
        collect_tags_from_value(value.as_slice(), tags);
        *in_tags_list = value.len() == 0;
        return;
    }
    let dash: Vec<char> = vec!['-', ' '];
    assert(dash@ =~= seq!['-', ' ']);
    if *in_tags_list && chars_start_with(line, dash.as_slice()) {
        let item = sub_chars(line, 2, line.len());
        assert(item@ =~= line@.skip(2));
        push_tag(item.as_slice(), tags);
        return;
    }
    *in_tags_list = false;
}


/// What `Path::file_name` (std) gives for a path, as text.
pub uninterp spec fn path_file_name(path: Seq<char>) -> Option<Seq<char>>;

/// Where the last `.` of a file name stands, or -1 when it has none.
pub open spec fn last_dot(name: Seq<char>) -> int
    decreases name.len(),
{
    if name.len() == 0 {
        -1
    } else if name.last() == '.' {
        name.len() - 1
    } else {
        last_dot(name.drop_last())
    }
}

/// The stem of a file name: the whole name when it has no `.`, or when its
/// only `.` is the first character; else what stands before the last `.`.
pub open spec fn stem_of_name(name: Seq<char>) -> Seq<char> {
    if last_dot(name) > 0 {
        name.take(last_dot(name))
    } else {
        name
    }
}

/// The extension of a file name: none when it has no `.`, or when its only
/// `.` is the first character; else what follows the last `.`.
pub open spec fn extension_of_name(name: Seq<char>) -> Option<Seq<char>> {
    if last_dot(name) > 0 {
        Some(name.skip(last_dot(name) + 1))
    } else {
        None
    }
}

/// The stem of a path's file name, as `Path::file_stem` (std) documents it.
pub open spec fn path_file_stem(path: Seq<char>) -> Option<Seq<char>> {
    match path_file_name(path) {
        Some(n) => Some(stem_of_name(n)),
        None => None,
    }
}

/// The extension of a path's file name, as `Path::extension` (std)
/// documents it.
pub open spec fn path_extension(path: Seq<char>) -> Option<Seq<char>> {
    match path_file_name(path) {
        Some(n) => extension_of_name(n),
        None => None,
    }
}

/// `Path::file_name` (std) on a path given as text: the final component,
/// if there is one. The result is given the name `path_file_name`.
#[verifier::external_body]
pub(crate) fn file_name_part(path: &str) -> (r: Option<String>)
    ensures
        match r {
            Some(s) => path_file_name(path@) == Some(s@),
            None => path_file_name(path@) is None,
        },
{
    match std::path::Path::new(path).file_name() {
        Some(name) => name.to_str().map(|n| n.to_string()),
        None => None,
    }
}

/// `Path::file_stem` (std) on a path given as text: `None` when the path
/// has no file name; else the file name without its extension (see
/// `stem_of_name`), as std's documentation states it.
#[verifier::external_body]
fn file_stem_part(path: &str) -> (r: Option<String>)
    ensures
        match r {
            Some(s) => path_file_stem(path@) == Some(s@),
            None => path_file_stem(path@) is None,
        },
{
    match std::path::Path::new(path).file_stem() {
        Some(stem) => stem.to_str().map(|n| n.to_string()),
        None => None,
    }
}

pub open spec fn unknown_name() -> Seq<char> {
    seq!['u', 'n', 'k', 'n', 'o', 'w', 'n']
}

/// The file name shown for a path: its final component, or `unknown`.
pub open spec fn file_name_of(path: Seq<char>) -> Seq<char> {
    match path_file_name(path) {
        Some(n) => n,
        None => unknown_name(),
    }
}

/// The file stem of a path, or `fallback` when it has none.
pub open spec fn file_stem_of(path: Seq<char>, fallback: Seq<char>) -> Seq<char> {
    match path_file_stem(path) {
        Some(n) => n,
        None => fallback,
    }
}

fn file_name(path: &str) -> (r: String)
    ensures
        r@ == file_name_of(path@),
{
    match file_name_part(path) {
        Some(name) => name,
        None => {
            let u: Vec<char> = vec!['u', 'n', 'k', 'n', 'o', 'w', 'n'];
            assert(u@ =~= unknown_name());
            string_of(u.as_slice())
        },
    }
}

fn file_stem(path: &str, fallback: &String) -> (r: String)
    ensures
        r@ == file_stem_of(path@, fallback@),
{
    match file_stem_part(path) {
        Some(stem) => stem,
        None => fallback.clone(),
    }
}

/// A section as text.
pub struct SectionView {
    pub heading: Seq<char>,
    pub level: u8,
    pub body: Seq<char>,
}

pub open spec fn section_view(s: Section) -> SectionView {
    SectionView { heading: s.heading@, level: s.level, body: s.body@ }
}

pub open spec fn sections_view(v: Seq<Section>) -> Seq<SectionView> {
    v.map_values(|s: Section| section_view(s))
}

/// What the parser knows after some lines of a note.
pub struct ParseState {
    pub title: Seq<char>,
    pub headings: Seq<Seq<char>>,
    pub tags: Seq<Seq<char>>,
    pub sections: Seq<SectionView>,
    pub first_text: Seq<char>,
    pub heading: Seq<char>,
    pub level: u8,
    pub body: Seq<char>,
    pub in_front_matter: bool,
    pub in_front_matter_tags: bool,
    pub in_code_block: bool,
}

pub open spec fn document_heading() -> Seq<char> {
    seq!['D', 'o', 'c', 'u', 'm', 'e', 'n', 't']
}

pub open spec fn front_matter_marker() -> Seq<char> {
    seq!['-', '-', '-']
}

pub open spec fn initial_state() -> ParseState {
    ParseState {
        title: Seq::empty(),
        headings: Seq::empty(),
        tags: Seq::empty(),
        sections: Seq::empty(),
        first_text: Seq::empty(),
        heading: document_heading(),
        level: 0,
        body: Seq::empty(),
        in_front_matter: false,
        in_front_matter_tags: false,
        in_code_block: false,
    }
}

/// The section that a heading closes is kept unless it is an empty
/// section before the first heading.
pub open spec fn close_section(sections: Seq<SectionView>, heading: Seq<char>, level: u8, body: Seq<char>) -> Seq<SectionView> {
    if trim(body).len() == 0 && sections.len() == 0 {
        sections
    } else {
        sections.push(SectionView { heading, level, body: trim(body) })
    }
}

/// The body with one more line.
pub open spec fn body_with(body: Seq<char>, line: Seq<char>) -> Seq<char> {
    body + line + seq!['\n']
}

/// The effect of the line with index `index` on the parser's state.
pub open spec fn step(st: ParseState, index: int, line: Seq<char>) -> ParseState {
    let trimmed = trim(line);
    if index == 0 && trimmed == front_matter_marker() {
        ParseState { in_front_matter: true, ..st }
    } else if st.in_front_matter {
        if trimmed == front_matter_marker() {
            ParseState { in_front_matter: false, in_front_matter_tags: false, ..st }
        } else {
            let (title, tags, in_list) = front_matter_line(trimmed, st.title, st.tags, st.in_front_matter_tags);
            ParseState { title, tags, in_front_matter_tags: in_list, ..st }
        }
    } else if is_fence(trimmed) {
        ParseState { in_code_block: !st.in_code_block, body: body_with(st.body, line), ..st }
    } else {
        let (is_meta, title, tags) = if st.in_code_block {
            (false, st.title, st.tags)
        } else {
            metadata_line(trimmed, st.title, st.tags)
        };
        let heading = if st.in_code_block {
            None
        } else {
            heading_of(trimmed)
        };
        match heading {
            Some((level, text)) => ParseState {
                sections: close_section(st.sections, st.heading, st.level, st.body),
                body: Seq::empty(),
                title: if title.len() == 0 && level == 1 {
                    text
                } else {
                    title
                },
                tags,
                heading: text,
                level,
                headings: st.headings.push(text),
                ..st
            },
            None => ParseState {
                title,
                tags: if !is_meta {
                    tags + inline_tags(trimmed)
                } else {
                    tags
                },
                first_text: if !is_meta && st.first_text.len() == 0 && trimmed.len() > 0 {
                    trimmed
                } else {
                    st.first_text
                },
                body: body_with(st.body, line),
                ..st
            },
        }
    }
}

/// The parser's state after the given lines.
pub open spec fn parse_lines(ls: Seq<Seq<char>>) -> ParseState
    decreases ls.len(),
{
    if ls.len() == 0 {
        initial_state()
    } else {
        step(parse_lines(ls.drop_last()), ls.len() - 1, ls.last())
    }
}

/// The sections of the note: the last one is kept when it has text or is
/// the only one.
pub open spec fn final_sections(st: ParseState) -> Seq<SectionView> {
    if trim(st.body).len() > 0 || st.sections.len() == 0 {
        st.sections.push(SectionView { heading: st.heading, level: st.level, body: trim(st.body) })
    } else {
        st.sections
    }
}

/// The title of the note: the metadata or first level-1 heading, else the
/// first heading, else the first line of text, else the file stem.
pub open spec fn final_title(st: ParseState, stem: Seq<char>) -> Seq<char> {
    if st.title.len() > 0 {
        st.title
    } else if st.headings.len() > 0 {
        st.headings[0]
    } else if st.first_text.len() > 0 {
        st.first_text
    } else {
        stem
    }
}

fn push_body_line(body: &mut Vec<char>, line: &[char])
    ensures
        final(body)@ == body_with(old(body)@, line@),
{
    let mut i: usize = 0;
    let ghost start = body@;
    while i < line.len()
        invariant
            0 <= i <= line@.len(),
            body@ == start + line@.take(i as int),
        decreases line.len() - i,
    {
        body.push(line[i]);
        assert(line@.take(i + 1) =~= line@.take(i as int).push(line@[i as int]));
        i += 1;
    }
    body.push('\n');
    assert(line@.take(i as int) =~= line@);
}

fn push_section(sections: &mut Vec<Section>, heading: &[char], level: u8, body: &[char])
    ensures
        sections_view(final(sections)@) == close_section(sections_view(old(sections)@), heading@, level, body@),
{
    let trimmed = trim_chars(body);
    if trimmed.len() == 0 && sections.len() == 0 {
        return;
    }
    let ghost before = sections@;
    let section = Section { heading: string_of(heading), level, body: string_of(trimmed.as_slice()) };
    sections.push(section);
    assert(sections_view(sections@) =~= sections_view(before).push(section_view(section)));
}

#[derive(Debug, Default, Clone, Copy)]
pub struct MarkdownParser;

impl MarkdownParser {
    /// Parses one note. `path` is the note's path as text.
    pub fn parse(&self, id: usize, path: &str, content: String, modified: u64) -> (r: Document)
        ensures
            r.id == id,
            r.path@ == path@,
            r.modified == modified,
            r.body@ == content@,
            r.file_name@ == file_name_of(path@),
            r.title@ == final_title(parse_lines(lines(content@)), file_stem_of(path@, file_name_of(path@))),
            r.headings.deep_view() == parse_lines(lines(content@)).headings,
            strictly_sorted(r.tags.deep_view()),
            r.tags.deep_view().to_set() == parse_lines(lines(content@)).tags.to_set(),
            sections_view(r.sections@) == final_sections(parse_lines(lines(content@))),
            r.sections@.len() >= 1,
            well_formed_tags(r.tags.deep_view()),
            trimmed_bodies(sections_view(r.sections@)),
    {
        let file_name = file_name(path);
        let file_stem = file_stem(path, &file_name);
        let cs = chars_of(content.as_str());
        let ls = lines_of(cs.as_slice());
        let ghost lv = rows(ls@);

        let mut title: Vec<char> = Vec::new();
        let mut headings: Vec<String> = Vec::new();
        let mut tags: Vec<String> = Vec::new();
        let mut sections: Vec<Section> = Vec::new();
        let mut first_text_line: Vec<char> = Vec::new();
        let mut current_heading: Vec<char> = vec!['D', 'o', 'c', 'u', 'm', 'e', 'n', 't'];
        let mut current_level: u8 = 0;
        let mut current_body: Vec<char> = Vec::new();
        let mut in_front_matter = false;
        let mut in_front_matter_tags = false;
        let mut in_code_block = false;
        let marker: Vec<char> = vec!['-', '-', '-'];
        proof {
            assert(marker@ =~= front_matter_marker());
            assert(current_heading@ =~= document_heading());
            assert(lv.take(0) =~= Seq::<Seq<char>>::empty());
            assert(headings.deep_view() =~= Seq::<Seq<char>>::empty());
            assert(tags.deep_view() =~= Seq::<Seq<char>>::empty());
            assert(sections_view(sections@) =~= Seq::<SectionView>::empty());
        }
        let mut k: usize = 0;
        while k < ls.len()
            invariant
                0 <= k <= ls@.len(),
                lv == rows(ls@),
                marker@ == front_matter_marker(),
                parse_lines(lv.take(k as int)) == (ParseState {
                    title: title@,
                    headings: headings.deep_view(),
                    tags: tags.deep_view(),
                    sections: sections_view(sections@),
                    first_text: first_text_line@,
                    heading: current_heading@,
                    level: current_level,
                    body: current_body@,
                    in_front_matter,
                    in_front_matter_tags,
                    in_code_block,
                }),
            decreases ls.len() - k,
        {
            let line = ls[k].as_slice();
            let ghost prev = parse_lines(lv.take(k as int));
            proof {
                assert(lv.take(k + 1).drop_last() =~= lv.take(k as int));
                assert(lv[k as int] == line@);
            }
            let trimmed = trim_chars(line);
            let is_marker = chars_eq(trimmed.as_slice(), marker.as_slice());
            if k == 0 && is_marker {
                in_front_matter = true;
            } else if in_front_matter {
                if is_marker {
                    in_front_matter = false;
                    in_front_matter_tags = false;
                } else {
                    collect_front_matter_line(trimmed.as_slice(), &mut title, &mut tags, &mut in_front_matter_tags);
                }
            } else if is_code_fence(trimmed.as_slice()) {
                in_code_block = !in_code_block;
                push_body_line(&mut current_body, line);
            } else {
                let is_metadata_line = if in_code_block {
                    false
                } else {
                    collect_metadata_line(trimmed.as_slice(), &mut title, &mut tags)
                };
                let heading = if in_code_block {
                    None
                } else {
                    parse_heading(trimmed.as_slice())
                };
                match heading {
                    Some((level, text)) => {
                        push_section(&mut sections, current_heading.as_slice(), current_level, current_body.as_slice());
                        current_body = Vec::new();
                        if title.len() == 0 && level == 1 {
                            title = text.clone();
                        }
                        let ghost before = headings.deep_view();
                        headings.push(string_of(text.as_slice()));
                        assert(headings.deep_view() =~= before.push(text@));
                        current_heading = text;
                        current_level = level;
                    },
                    None => {
                        if !is_metadata_line {
                            collect_inline_tags(trimmed.as_slice(), &mut tags);
                            if first_text_line.len() == 0 && trimmed.len() > 0 {
                                first_text_line = trimmed.clone();
                            }
                        }
                        push_body_line(&mut current_body, line);
                    },
                }
            }
            proof {
                assert(current_body@ =~= current_body@);
            }
            k += 1;
        }
        let trimmed_body = trim_chars(current_body.as_slice());
        if trimmed_body.len() > 0 || sections.len() == 0 {
            let ghost before = sections@;
            let section = Section { heading: string_of(current_heading.as_slice()), level: current_level, body: string_of(trimmed_body.as_slice()) };
            sections.push(section);
            assert(sections_view(sections@) =~= sections_view(before).push(section_view(section)));
        }
        let title_text = if title.len() > 0 {
            string_of(title.as_slice())
        } else if headings.len() > 0 {
            headings[0].clone()
        } else if first_text_line.len() > 0 {
            string_of(first_text_line.as_slice())
        } else {
            file_stem
        };
        let sorted_tags = sorted_unique(&tags);
        proof {
            assert(lv.take(k as int) =~= lv);
            assert(sections_view(sections@).len() == sections@.len());
            lemma_tags_well_formed(lv);
            lemma_sections_trimmed(lv);
            let all = tags.deep_view();
            let out = sorted_tags.deep_view();
            assert forall|i: int| 0 <= i < out.len() implies well_formed_tag(#[trigger] out[i]) by {
                assert(out.to_set().contains(out[i]));
                assert(all.to_set().contains(out[i]));
                let j = choose|j: int| 0 <= j < all.len() && all[j] == out[i];
                assert(well_formed_tag(all[j]));
            }
        }
        Document {
            id,
            path: path.to_owned(),
            file_name,
            title: title_text,
            headings,
            tags: sorted_tags,
            modified,
            body: content,
            sections,
        }
    }
}

/// A character that may begin or end a tag: a letter or a digit (lowered
/// when it was an ASCII capital), or `-`.
pub open spec fn tag_edge(c: char) -> bool {
    unicode_alphanumeric(c) || c == '-' || ('a' <= c && c <= 'z')
}

/// What every tag is: not empty, without ASCII capitals, and beginning and
/// ending with a letter, a digit or `-`.
pub open spec fn well_formed_tag(t: Seq<char>) -> bool {
    &&& t.len() > 0
    &&& forall|i: int| 0 <= i < t.len() ==> !('A' <= #[trigger] t[i] && t[i] <= 'Z')
    &&& tag_edge(t[0])
    &&& tag_edge(t.last())
}

pub open spec fn well_formed_tags(ts: Seq<Seq<char>>) -> bool {
    forall|i: int| 0 <= i < ts.len() ==> well_formed_tag(#[trigger] ts[i])
}

proof fn lemma_well_formed_concat(a: Seq<Seq<char>>, b: Seq<Seq<char>>)
    requires
        well_formed_tags(a),
        well_formed_tags(b),
    ensures
        well_formed_tags(a + b),
{
    assert forall|i: int| 0 <= i < (a + b).len() implies well_formed_tag(#[trigger] (a + b)[i]) by {
        if i < a.len() {
            assert((a + b)[i] == a[i]);
        } else {
            assert((a + b)[i] == b[i - a.len()]);
        }
    }
}

proof fn lemma_tag_out(raw: Seq<char>)
    ensures
        well_formed_tags(tag_out(raw)),
{
    let inner = trim_start_by(trim(raw), TrimPattern::Char('#'));
    let c = trim_by(inner, TrimPattern::NotTagChar);
    lemma_trim_by(inner, TrimPattern::NotTagChar);
    let t = ascii_lower_seq(c);
    assert(t == clean_tag(raw));
    if t.len() > 0 {
        assert forall|i: int| 0 <= i < t.len() implies !('A' <= #[trigger] t[i] && t[i] <= 'Z') by {
            assert(t[i] == ascii_lower(c[i]));
        }
        assert(t[0] == ascii_lower(c[0]));
        assert(t.last() == ascii_lower(c.last()));
        assert(well_formed_tag(t));
        assert(tag_out(raw) =~= seq![t]);
    } else {
        assert(tag_out(raw) =~= Seq::<Seq<char>>::empty());
    }
}

proof fn lemma_tags_of_pieces(pieces: Seq<Seq<char>>)
    ensures
        well_formed_tags(tags_of_pieces(pieces)),
    decreases pieces.len(),
{
    if pieces.len() > 0 {
        lemma_tags_of_pieces(pieces.drop_last());
        lemma_tag_out(pieces.last());
        lemma_well_formed_concat(tags_of_pieces(pieces.drop_last()), tag_out(pieces.last()));
    }
}

proof fn lemma_inline_tags(s: Seq<char>)
    ensures
        well_formed_tags(inline_tags(s)),
    decreases s.len(),
{
    if s.len() > 0 {
        if s[0] != '#' {
            lemma_inline_tags(s.drop_first());
        } else {
            let w = tag_word_len(s.drop_first());
            lemma_tag_word_len(s.drop_first());
            lemma_inline_tags(s.skip(1 + w as int));
            lemma_tag_out(ascii_lower_seq(s.subrange(1, 1 + w as int)));
            lemma_well_formed_concat(tag_out(ascii_lower_seq(s.subrange(1, 1 + w as int))), inline_tags(s.skip(1 + w as int)));
        }
    }
}

proof fn lemma_step_tags(st: ParseState, index: int, line: Seq<char>)
    requires
        well_formed_tags(st.tags),
    ensures
        well_formed_tags(step(st, index, line).tags),
{
    let trimmed = trim(line);
    match key_value(trimmed, tags_key()) {
        Some(v) => {
            lemma_tags_of_pieces(split_tag_list(remove_char(
                trim_end_by(trim_start_by(trim(v), TrimPattern::Char('[')), TrimPattern::Char(']')),
                '"',
            )));
            lemma_well_formed_concat(st.tags, tags_from_value(v));
        },
        None => {},
    }
    lemma_tag_out(trimmed.skip(2));
    lemma_well_formed_concat(st.tags, tag_out(trimmed.skip(2)));
    lemma_inline_tags(trimmed);
    lemma_well_formed_concat(st.tags, inline_tags(trimmed));
    let (is_meta, title, tags) = if st.in_code_block {
        (false, st.title, st.tags)
    } else {
        metadata_line(trimmed, st.title, st.tags)
    };
    lemma_well_formed_concat(tags, inline_tags(trimmed));
}

/// Every tag the parser collects, from front matter, `tags:` lines and
/// inline `#tags` alike, is well formed: not empty, without ASCII capitals,
/// and beginning and ending with a letter, a digit or `-`.
pub proof fn lemma_tags_well_formed(ls: Seq<Seq<char>>)
    ensures
        well_formed_tags(parse_lines(ls).tags),
    decreases ls.len(),
{
    if ls.len() > 0 {
        lemma_tags_well_formed(ls.drop_last());
        lemma_step_tags(parse_lines(ls.drop_last()), ls.len() - 1, ls.last());
    }
}

pub open spec fn trimmed_bodies(sections: Seq<SectionView>) -> bool {
    forall|i: int| 0 <= i < sections.len() ==> trim((#[trigger] sections[i]).body) == sections[i].body
}

proof fn lemma_sections_trimmed_state(ls: Seq<Seq<char>>)
    ensures
        trimmed_bodies(parse_lines(ls).sections),
    decreases ls.len(),
{
    if ls.len() > 0 {
        let st = parse_lines(ls.drop_last());
        lemma_sections_trimmed_state(ls.drop_last());
        lemma_trim_by(st.body, TrimPattern::Whitespace);
    }
}

/// Every section of a note has a trimmed body: no white space at either
/// end.
pub proof fn lemma_sections_trimmed(ls: Seq<Seq<char>>)
    ensures
        trimmed_bodies(final_sections(parse_lines(ls))),
{
    lemma_sections_trimmed_state(ls);
    lemma_trim_by(parse_lines(ls).body, TrimPattern::Whitespace);
}

/// Inside a fenced code block a line is only text of the current section:
/// it starts no heading or section and sets no title, whatever it looks
/// like.
pub proof fn lemma_code_block_line(st: ParseState, index: int, line: Seq<char>)
    requires
        st.in_code_block,
        !st.in_front_matter,
        !is_fence(trim(line)),
        !(index == 0 && trim(line) == front_matter_marker()),
    ensures
        step(st, index, line).headings == st.headings,
        step(st, index, line).sections == st.sections,
        step(st, index, line).title == st.title,
        step(st, index, line).heading == st.heading,
        step(st, index, line).level == st.level,
        step(st, index, line).in_code_block,
        step(st, index, line).body == body_with(st.body, line),
{
}

proof fn lemma_tag_word_prefix(w: Seq<char>, rest: Seq<char>)
    requires
        forall|i: int| 0 <= i < w.len() ==> unicode_alphanumeric(#[trigger] w[i]) || w[i] == '-' || w[i] == '_',
        rest.len() == 0 || !(unicode_alphanumeric(rest[0]) || rest[0] == '-' || rest[0] == '_'),
    ensures
        tag_word_len(w + rest) == w.len(),
    decreases w.len(),
{
    if w.len() > 0 {
        assert((w + rest)[0] == w[0]);
        assert((w + rest).drop_first() =~= w.drop_first() + rest);
        lemma_tag_word_prefix(w.drop_first(), rest);
    } else {
        assert(w + rest =~= rest);
    }
}

proof fn lemma_ascii_lower_twice(c: char)
    ensures
        ascii_lower(ascii_lower(c)) == ascii_lower(c),
        !('A' <= ascii_lower(c) && ascii_lower(c) <= 'Z'),
        ('A' <= c && c <= 'Z') ==> ('a' <= ascii_lower(c) && ascii_lower(c) <= 'z'),
        !('A' <= c && c <= 'Z') ==> ascii_lower(c) == c,
{
}

/// An inline tag `#w`, where `w` is made of letters, digits, `-` and `_`,
/// begins and ends with a letter or digit (also once lowered) and is
/// followed by the end of the line or by a character that cannot continue
/// a tag, gives exactly the tag `w` in ASCII lower case; what follows is
/// read on.
pub proof fn lemma_inline_tag_word(w: Seq<char>, rest: Seq<char>)
    requires
        w.len() > 0,
        forall|i: int| 0 <= i < w.len() ==> unicode_alphanumeric(#[trigger] w[i]) || w[i] == '-' || w[i] == '_',
        w[0] != '#',
        unicode_alphanumeric(ascii_lower(w[0])),
        unicode_alphanumeric(ascii_lower(w.last())),
        !unicode_whitespace(w[0]),
        !unicode_whitespace(w.last()),
        rest.len() == 0 || !(unicode_alphanumeric(rest[0]) || rest[0] == '-' || rest[0] == '_'),
    ensures
        inline_tags(seq!['#'] + w + rest) == seq![ascii_lower_seq(w)] + inline_tags(rest),
{
    let s = seq!['#'] + w + rest;
    assert(s[0] == '#');
    assert(s.drop_first() =~= w + rest);
    lemma_tag_word_prefix(w, rest);
    assert(s.subrange(1, 1 + w.len() as int) =~= w);
    assert(s.skip(1 + w.len() as int) =~= rest);
    let v = ascii_lower_seq(w);
    lemma_ascii_lower_twice(w[0]);
    lemma_ascii_lower_twice(w.last());
    assert(v[0] == ascii_lower(w[0]));
    assert(v.last() == ascii_lower(w.last()));
    assert(!unicode_whitespace(v[0]));
    assert(!unicode_whitespace(v.last()));
    assert(trim_start_by(v, TrimPattern::Whitespace) == v);
    assert(trim_end_by(v, TrimPattern::Whitespace) == v);
    assert(trim(v) == v);
    assert(v[0] != '#');
    assert(trim_start_by(v, TrimPattern::Char('#')) == v);
    assert(trim_start_by(v, TrimPattern::NotTagChar) == v);
    assert(trim_end_by(v, TrimPattern::NotTagChar) == v);
    assert forall|i: int| 0 <= i < v.len() implies #[trigger] ascii_lower(v[i]) == v[i] by {
        lemma_ascii_lower_twice(w[i]);
    }
    assert(ascii_lower_seq(v) =~= v);
    assert(clean_tag(v) == v);
    assert(tag_out(v) =~= seq![v]);
}

} // verus!
