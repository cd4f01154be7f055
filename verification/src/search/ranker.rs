//! What a search finds for each document: the query terms that occur in it
//! with their counters, the terms to show, phrase occurrences, the most
//! relevant section and the snippets. Scores are real numbers and are
//! computed by the caller from these counts.
use vstd::prelude::*;

use crate::index::inverted::{docs_with, occurs, stats_match, InvertedIndex, TermStats};
use crate::ingest::parser::{section_view, SectionView};
use crate::model::{Document, Section};
use crate::search::highlight::{
    find_chars, find_chars_from, find_from, highlight_with_ansi, highlight_with_marks,
    highlighted, lemma_find_from, lemma_find_from_finds, make_snippet, snippet,
};
use crate::search::query::Query;
use crate::text::{
    chars_of, join, join_strings, lowercase, sorted_unique, strictly_sorted, string_of, string_push,
    to_lowercase, trim, trim_chars, words, split_words,
};

verus! {

/// Whether `needle` occurs in `hay` (`str::contains`).
pub open spec fn contains(hay: Seq<char>, needle: Seq<char>) -> bool {
    find_from(hay, needle, 0) is Some
}

/// Number of non-overlapping occurrences of `needle` in `hay` from `j`, left
/// to right (`str::matches(..).count()`); an empty needle matches at every
/// character boundary.
pub open spec fn count_from(hay: Seq<char>, needle: Seq<char>, j: int) -> nat
    decreases hay.len() + 1 - j,
{
    if needle.len() == 0 {
        if 0 <= j <= hay.len() {
            (hay.len() + 1 - j) as nat
        } else {
            0
        }
    } else {
        match find_from(hay, needle, j) {
            Some(k) => if k >= j {
                proof {
                    lemma_find_from(hay, needle, j);
                }
                1 + count_from(hay, needle, k + needle.len())
            } else {
                0
            },
            None => 0,
        }
    }
}

fn count_matches(hay: &[char], needle: &[char]) -> (r: u128)
    ensures
        r == count_from(hay@, needle@, 0),
        r <= hay@.len() + 1,
{
    if needle.len() == 0 {
        return hay.len() as u128 + 1;
    }
    let mut j: usize = 0;
    let mut count: u128 = 0;
    while j <= hay.len()
        invariant
            needle@.len() > 0,
            0 <= j <= hay@.len() + 1,
            count <= j,
            count + count_from(hay@, needle@, j as int) == count_from(hay@, needle@, 0),
        decreases hay@.len() + 1 - j,
    {
        proof {
            lemma_find_from(hay@, needle@, j as int);
        }
        match find_chars_from(hay, needle, j) {
            Some(k) => {
                count += 1;
                j = k + needle.len();
            },
            None => {
                return count;
            },
        }
    }
    count
}

/// Saturates at `u64::MAX`.
pub open spec fn sat(n: nat) -> nat {
    if n <= u64::MAX {
        n
    } else {
        u64::MAX as nat
    }
}

/// How well a section fits the terms: each occurrence in the heading counts
/// four, each in the body one.
pub open spec fn section_score(s: SectionView, terms: Seq<Seq<char>>) -> nat
    decreases terms.len(),
{
    if terms.len() == 0 {
        0
    } else {
        section_score(s, terms.drop_last()) + 4 * count_from(lowercase(s.heading), terms.last(), 0)
            + count_from(lowercase(s.body), terms.last(), 0)
    }
}

fn section_score_of(section: &Section, terms: &[String]) -> (r: u64)
    ensures
        r == sat(section_score(section_view(*section), terms.deep_view())),
{
    let heading = chars_of(to_lowercase(section.heading.as_str()).as_str());
    let body = chars_of(to_lowercase(section.body.as_str()).as_str());
    let ghost tv = terms.deep_view();
    let ghost sv = section_view(*section);
    let mut total: u64 = 0;
    let mut i: usize = 0;
    assert(tv.take(0) =~= Seq::<Seq<char>>::empty());
    while i < terms.len()
        invariant
            0 <= i <= terms@.len(),
            tv == terms.deep_view(),
            sv == section_view(*section),
            heading@ == lowercase(sv.heading),
            body@ == lowercase(sv.body),
            total == sat(section_score(sv, tv.take(i as int))),
        decreases terms.len() - i,
    {
        assert(tv.take(i + 1).drop_last() =~= tv.take(i as int));
        assert(tv.take(i + 1).last() == terms@[i as int]@);
        let t = chars_of(terms[i].as_str());
        let h = count_matches(heading.as_slice(), t.as_slice());
        let b = count_matches(body.as_slice(), t.as_slice());
        assert(heading@.len() == heading.len() && body@.len() == body.len());
        let add: u128 = 4 * h + b;
        let sum: u128 = total as u128 + add;
        if sum > u64::MAX as u128 {
            total = u64::MAX;
        } else {
            total = sum as u64;
        }
        i += 1;
    }
    assert(tv.take(i as int) =~= tv);
    total
}

/// A section's score does not depend on case: two sections whose headings
/// agree once lower-cased, and whose bodies do, score the same.
pub proof fn lemma_section_score_ignores_case(s1: SectionView, s2: SectionView, terms: Seq<Seq<char>>)
    requires
        lowercase(s1.heading) == lowercase(s2.heading),
        lowercase(s1.body) == lowercase(s2.body),
    ensures
        section_score(s1, terms) == section_score(s2, terms),
    decreases terms.len(),
{
    if terms.len() > 0 {
        lemma_section_score_ignores_case(s1, s2, terms.drop_last());
    }
}

/// A section whose body holds a query term, in any case (the term occurs
/// in the lower-cased body), scores at least one.
pub proof fn lemma_section_score_counts_body(s: SectionView, terms: Seq<Seq<char>>, i: int, k: int)
    requires
        0 <= i < terms.len(),
        terms[i].len() > 0,
        0 <= k,
        k + terms[i].len() <= lowercase(s.body).len(),
        lowercase(s.body).subrange(k, k + terms[i].len()) == terms[i],
    ensures
        section_score(s, terms) >= 1,
    decreases terms.len(),
{
    if i == terms.len() - 1 {
        lemma_find_from_finds(lowercase(s.body), terms[i], 0, k);
        assert(count_from(lowercase(s.body), terms.last(), 0) >= 1);
    } else {
        assert(terms.drop_last()[i] == terms[i]);
        lemma_section_score_counts_body(s, terms.drop_last(), i, k);
    }
}

/// Position of the last of the highest scores.
pub open spec fn last_max(scores: Seq<nat>) -> Option<int>
    decreases scores.len(),
{
    if scores.len() == 0 {
        None
    } else {
        match last_max(scores.drop_last()) {
            None => Some(scores.len() - 1),
            Some(i) => if scores.last() >= scores[i] {
                Some(scores.len() - 1)
            } else {
                Some(i)
            },
        }
    }
}

pub proof fn lemma_last_max(scores: Seq<nat>)
    ensures
        last_max(scores) matches Some(i) ==> 0 <= i < scores.len(),
        scores.len() > 0 ==> last_max(scores) is Some,
    decreases scores.len(),
{
    if scores.len() > 0 {
        lemma_last_max(scores.drop_last());
    }
}

proof fn lemma_last_max_is_max(scores: Seq<nat>)
    ensures
        last_max(scores) matches Some(i) ==> forall|j: int| 0 <= j < scores.len() ==> scores[j] <= #[trigger] scores[i],
        last_max(scores) matches Some(i) ==> forall|j: int| i < j < scores.len() ==> #[trigger] scores[j] < scores[i],
    decreases scores.len(),
{
    if scores.len() > 0 {
        lemma_last_max_is_max(scores.drop_last());
        lemma_last_max(scores.drop_last());
        if let Some(i) = last_max(scores) {
            assert forall|j: int| 0 <= j < scores.len() implies scores[j] <= #[trigger] scores[i] by {
                if j < scores.len() - 1 {
                    assert(scores.drop_last()[j] == scores[j]);
                    if let Some(i0) = last_max(scores.drop_last()) {
                        assert(scores.drop_last()[i0] == scores[i0]);
                    }
                }
            }
            assert forall|j: int| i < j < scores.len() implies #[trigger] scores[j] < scores[i] by {
                if let Some(i0) = last_max(scores.drop_last()) {
                    assert(scores.drop_last()[i0] == scores[i0]);
                    if j < scores.len() - 1 {
                        assert(scores.drop_last()[j] == scores[j]);
                    }
                }
            }
        }
    }
}

/// The (saturated) scores of the sections of a document.
pub open spec fn section_scores(sections: Seq<SectionView>, terms: Seq<Seq<char>>) -> Seq<nat> {
    sections.map_values(|s: SectionView| sat(section_score(s, terms)))
}

/// The section shown for a document: the last of its best-scoring sections,
/// or an empty one when it has none.
pub open spec fn best_section_view(sections: Seq<SectionView>, terms: Seq<Seq<char>>) -> SectionView {
    match last_max(section_scores(sections, terms)) {
        Some(i) => sections[i],
        None => SectionView { heading: Seq::empty(), level: 0, body: Seq::empty() },
    }
}

/// The section shown is one of the document's sections; none of them
/// scores higher, and every later one scores lower (of equal best scores
/// the last wins). So when some section's body holds a query term in any
/// case, the section shown scores at least one.
pub proof fn lemma_best_section_is_best(sections: Seq<SectionView>, terms: Seq<Seq<char>>)
    requires
        sections.len() > 0,
    ensures
        exists|i: int| 0 <= i < sections.len() && #[trigger] sections[i] == best_section_view(sections, terms)
            && (forall|j: int| 0 <= j < sections.len() ==> sat(section_score(#[trigger] sections[j], terms)) <= sat(section_score(sections[i], terms)))
            && (forall|j: int| i < j < sections.len() ==> sat(section_score(#[trigger] sections[j], terms)) < sat(section_score(sections[i], terms))),
{
    let scores = section_scores(sections, terms);
    lemma_last_max(scores);
    lemma_last_max_is_max(scores);
    let i = last_max(scores)->0;
    assert(sections[i] == best_section_view(sections, terms));
    assert forall|j: int| 0 <= j < sections.len() implies sat(section_score(#[trigger] sections[j], terms)) <= sat(section_score(sections[i], terms)) by {
        assert(scores[j] <= scores[i]);
    }
    assert forall|j: int| i < j < sections.len() implies sat(section_score(#[trigger] sections[j], terms)) < sat(section_score(sections[i], terms)) by {
        assert(scores[j] < scores[i]);
    }
}

/// The section of `document` that fits the terms best.
pub fn best_section(document: &Document, terms: &[String]) -> (r: Section)
    ensures
        section_view(r) == best_section_view(crate::ingest::parser::sections_view(document.sections@), terms.deep_view()),
{
    let ghost sv = crate::ingest::parser::sections_view(document.sections@);
    let ghost scores = section_scores(sv, terms.deep_view());
    let mut best: Option<(usize, u64)> = None;
    let mut i: usize = 0;
    assert(scores.take(0) =~= Seq::<nat>::empty());
    while i < document.sections.len()
        invariant
            0 <= i <= document.sections@.len(),
            sv == crate::ingest::parser::sections_view(document.sections@),
            scores == section_scores(sv, terms.deep_view()),
            match last_max(scores.take(i as int)) {
                None => best is None,
                Some(k) => best matches Some((j, v)) && j == k && v == scores[k] && k < i,
            },
        decreases document.sections.len() - i,
    {
        let score = section_score_of(&document.sections[i], terms);
        assert(scores.take(i + 1).drop_last() =~= scores.take(i as int));
        assert(scores.take(i + 1).last() == scores[i as int]);
        assert(scores[i as int] == score);
        match best {
            None => {
                best = Some((i, score));
            },
            Some((j, v)) => {
                if score >= v {
                    best = Some((i, score));
                }
            },
        }
        i += 1;
    }
    assert(scores.take(i as int) =~= scores);
    match best {
        Some((j, v)) => {
            let s = &document.sections[j];
            Section { heading: s.heading.clone(), level: s.level, body: s.body.clone() }
        },
        None => Section { heading: String::new(), level: 0, body: String::new() },
    }
}

/// All the text of a document that matched terms are looked for in.
pub open spec fn searchable(doc: Document) -> Seq<char> {
    doc.title@ + seq![' '] + doc.file_name@ + seq![' '] + join(doc.tags.deep_view(), seq![' ']) + seq![' ']
        + join(doc.headings.deep_view(), seq![' ']) + seq![' '] + doc.body@
}

pub fn searchable_text(document: &Document) -> (r: String)
    ensures
        r@ == searchable(*document),
{
    let mut out = document.title.clone();
    string_push(&mut out, ' ');
    out.append(document.file_name.as_str());
    string_push(&mut out, ' ');
    assert(" "@ =~= seq![' ']) by {
        reveal_strlit(" ");
    }
    let tags = join_strings(document.tags.as_slice(), " ");
    out.append(tags.as_str());
    string_push(&mut out, ' ');
    let headings = join_strings(document.headings.as_slice(), " ");
    out.append(headings.as_str());
    string_push(&mut out, ' ');
    out.append(document.body.as_str());
    assert(out@ =~= searchable(*document));
    out
}

/// The keywords that occur (ignoring case) in `hay`.
pub open spec fn kept_keywords(hay: Seq<char>, ks: Seq<Seq<char>>) -> Seq<Seq<char>>
    decreases ks.len(),
{
    if ks.len() == 0 {
        Seq::empty()
    } else {
        kept_keywords(hay, ks.drop_last()) + (if contains(hay, lowercase(ks.last())) {
            seq![ks.last()]
        } else {
            Seq::empty()
        })
    }
}

/// The terms shown for a document: the query's keywords that occur in its
/// text (ignoring case), or else the terms it was found by; sorted, without
/// repeats.
pub fn display_matched_terms(document: &Document, query: &Query, indexed_matches: &Vec<String>) -> (r: Vec<String>)
    ensures
        strictly_sorted(r.deep_view()),
        r.deep_view().to_set() == (if kept_keywords(lowercase(searchable(*document)), query.keywords.deep_view()).len() > 0 {
            kept_keywords(lowercase(searchable(*document)), query.keywords.deep_view()).to_set()
        } else {
            indexed_matches.deep_view().to_set()
        }),
{
    let text = searchable_text(document);
    let hay = chars_of(to_lowercase(text.as_str()).as_str());
    let ghost ks = query.keywords.deep_view();
    let mut kept: Vec<String> = Vec::new();
    let mut i: usize = 0;
    assert(ks.take(0) =~= Seq::<Seq<char>>::empty());
    assert(kept.deep_view() =~= Seq::<Seq<char>>::empty());
    while i < query.keywords.len()
        invariant
            0 <= i <= query.keywords@.len(),
            ks == query.keywords.deep_view(),
            hay@ == lowercase(searchable(*document)),
            kept.deep_view() == kept_keywords(hay@, ks.take(i as int)),
        decreases query.keywords.len() - i,
    {
        assert(ks.take(i + 1).drop_last() =~= ks.take(i as int));
        assert(ks.take(i + 1).last() == query.keywords@[i as int]@);
        let k = &query.keywords[i];
        let lk = chars_of(to_lowercase(k.as_str()).as_str());
        let ghost before = kept.deep_view();
        if find_chars(hay.as_slice(), lk.as_slice()).is_some() {
            kept.push(k.clone());
            assert(kept.deep_view() =~= before + seq![k@]);
        } else {
            assert(kept.deep_view() =~= before + Seq::<Seq<char>>::empty());
        }
        i += 1;
    }
    assert(ks.take(i as int) =~= ks);
    if kept.len() > 0 {
        sorted_unique(&kept)
    } else {
        sorted_unique(indexed_matches)
    }
}

/// Where the whole query occurs as a phrase.
#[derive(Debug, Clone, Copy)]
pub struct PhraseHits {
    /// The query has more than one word.
    pub is_phrase: bool,
    pub title: bool,
    pub tags: bool,
    pub headings: bool,
    pub body: bool,
}

/// The query as a phrase: trimmed and lower-cased.
pub open spec fn phrase_of(raw: Seq<char>) -> Seq<char> {
    lowercase(trim(raw))
}

pub open spec fn phrase_hits_spec(doc: Document, raw: Seq<char>, r: PhraseHits) -> bool {
    let phrase = phrase_of(raw);
    &&& r.is_phrase == (phrase.len() > 0 && words(phrase).len() > 1)
    &&& r.title == (r.is_phrase && contains(lowercase(doc.title@), phrase))
    &&& r.tags == (r.is_phrase && contains(lowercase(join(doc.tags.deep_view(), seq![' '])), phrase))
    &&& r.headings == (r.is_phrase && contains(lowercase(join(doc.headings.deep_view(), seq![' '])), phrase))
    &&& r.body == (r.is_phrase && contains(lowercase(doc.body@), phrase))
}

fn contains_lowered(text: &str, phrase: &Vec<char>) -> (r: bool)
    ensures
        r == contains(lowercase(text@), phrase@),
{
    let hay = chars_of(to_lowercase(text).as_str());
    find_chars(hay.as_slice(), phrase.as_slice()).is_some()
}

/// Where the query occurs whole in the document, when it has several words.
pub fn phrase_hits(document: &Document, raw_query: &str) -> (r: PhraseHits)
    ensures
        phrase_hits_spec(*document, raw_query@, r),
{
    let trimmed = string_of(trim_chars(chars_of(raw_query).as_slice()).as_slice());
    let phrase_string = to_lowercase(trimmed.as_str());
    let phrase = chars_of(phrase_string.as_str());
    let is_phrase = phrase.len() > 0 && split_words(phrase.as_slice()).len() > 1;
    if !is_phrase {
        return PhraseHits { is_phrase: false, title: false, tags: false, headings: false, body: false };
    }
    assert(" "@ =~= seq![' ']) by {
        reveal_strlit(" ");
    }
    let tags = join_strings(document.tags.as_slice(), " ");
    let headings = join_strings(document.headings.as_slice(), " ");
    PhraseHits {
        is_phrase: true,
        title: contains_lowered(document.title.as_str(), &phrase),
        tags: contains_lowered(tags.as_str(), &phrase),
        headings: contains_lowered(headings.as_str(), &phrase),
        body: contains_lowered(document.body.as_str(), &phrase),
    }
}


pub proof fn lemma_docs_with_contains(docs: Seq<Document>, t: Seq<char>, d: int)
    requires
        0 <= d < docs.len(),
    ensures
        docs_with(docs, t).contains(d) <==> occurs(docs[d], t),
    decreases docs.len(),
{
    crate::index::inverted::lemma_docs_with_bound(docs.drop_last(), t);
    let prev = docs_with(docs.drop_last(), t);
    if d < docs.len() - 1 {
        lemma_docs_with_contains(docs.drop_last(), t, d);
        assert(docs.drop_last()[d] == docs[d]);
        if occurs(docs.last(), t) {
            assert(docs_with(docs, t) == prev.push(docs.len() - 1));
            assert(docs_with(docs, t).contains(d) ==> prev.contains(d)) by {
                if docs_with(docs, t).contains(d) {
                    let k = choose|k: int| 0 <= k < docs_with(docs, t).len() && docs_with(docs, t)[k] == d;
                    assert(k < prev.len());
                    assert(prev[k] == d);
                }
            }
            assert(prev.contains(d) ==> docs_with(docs, t).contains(d)) by {
                if prev.contains(d) {
                    let k = choose|k: int| 0 <= k < prev.len() && prev[k] == d;
                    assert(docs_with(docs, t)[k] == d);
                }
            }
        }
    } else {
        assert(!prev.contains(d)) by {
            if prev.contains(d) {
                let k = choose|k: int| 0 <= k < prev.len() && prev[k] == d;
            }
        }
        if occurs(docs.last(), t) {
            assert(docs_with(docs, t) == prev.push(docs.len() - 1));
            assert(docs_with(docs, t)[prev.len() as int] == d);
        }
    }
}

/// The query terms that occur in a document, in query order.
pub open spec fn matching_terms(doc: Document, terms: Seq<Seq<char>>) -> Seq<Seq<char>>
    decreases terms.len(),
{
    if terms.len() == 0 {
        Seq::empty()
    } else {
        matching_terms(doc, terms.drop_last()) + (if occurs(doc, terms.last()) {
            seq![terms.last()]
        } else {
            Seq::empty()
        })
    }
}

/// A query term found in a document, with its counters there and the number
/// of documents it occurs in.
#[derive(Debug, Clone)]
pub struct TermHit {
    pub term: String,
    pub stats: TermStats,
    pub document_frequency: usize,
}

pub open spec fn hit_terms(hits: Seq<TermHit>) -> Seq<Seq<char>> {
    hits.map_values(|h: TermHit| h.term@)
}

/// `hits` are the query terms found in document `d`, with their counters.
pub open spec fn hits_ok(docs: Seq<Document>, d: int, terms: Seq<Seq<char>>, hits: Seq<TermHit>) -> bool {
    &&& hit_terms(hits) == matching_terms(docs[d], terms)
    &&& forall|i: int| 0 <= i < hits.len() ==> stats_match((#[trigger] hits[i]).stats, docs[d], hits[i].term@)
    &&& forall|i: int| 0 <= i < hits.len() ==> (#[trigger] hits[i]).document_frequency == docs_with(docs, hits[i].term@).len()
}

/// The documents found by the terms: those in which at least one occurs,
/// in document order.
pub open spec fn candidate_ids(docs: Seq<Document>, terms: Seq<Seq<char>>, n: int) -> Seq<int>
    decreases n,
{
    if n <= 0 {
        Seq::empty()
    } else {
        candidate_ids(docs, terms, n - 1) + (if matching_terms(docs[n - 1], terms).len() > 0 {
            seq![n - 1]
        } else {
            Seq::empty()
        })
    }
}

/// The text a snippet is cut from: the section's heading and body, or the
/// whole document when the section has no text.
pub open spec fn snippet_source(doc: Document, section: SectionView) -> Seq<char> {
    if trim(section.body).len() == 0 {
        doc.body@
    } else {
        section.heading + seq!['\n'] + section.body
    }
}

/// What a search reports of one document, scores aside.
#[derive(Debug, Clone)]
pub struct SearchHit {
    pub doc_id: usize,
    pub hits: Vec<TermHit>,
    pub matched_terms: Vec<String>,
    pub phrase: PhraseHits,
    pub section: String,
    pub snippet: String,
    pub highlighted_snippet: String,
    pub marked_snippet: String,
}

pub open spec fn ansi_open() -> Seq<char> {
    "\x1b[1;33m"@
}

pub open spec fn ansi_close() -> Seq<char> {
    "\x1b[0m"@
}

pub open spec fn mark_open() -> Seq<char> {
    "<mark>"@
}

pub open spec fn mark_close() -> Seq<char> {
    "</mark>"@
}

/// Radius of a result snippet, in bytes.
pub const SNIPPET_RADIUS: usize = 80;

/// `h` is what the search reports of document `d` for `query`.
pub open spec fn hit_ok(docs: Seq<Document>, query: Query, d: int, h: SearchHit) -> bool {
    let doc = docs[d];
    let terms = query.terms.deep_view();
    let found = matching_terms(doc, terms);
    let kept = kept_keywords(lowercase(searchable(doc)), query.keywords.deep_view());
    let section = best_section_view(crate::ingest::parser::sections_view(doc.sections@), terms);
    &&& h.doc_id == d
    &&& hits_ok(docs, d, terms, h.hits@)
    &&& strictly_sorted(h.matched_terms.deep_view())
    &&& h.matched_terms.deep_view().to_set() == (if kept.len() > 0 { kept.to_set() } else { found.to_set() })
    &&& phrase_hits_spec(doc, query.raw@, h.phrase)
    &&& h.section@ == section.heading
    &&& h.snippet@ == snippet(snippet_source(doc, section), terms, SNIPPET_RADIUS as nat)
    &&& h.highlighted_snippet@ == highlighted(h.snippet@, terms, ansi_open(), ansi_close())
    &&& h.marked_snippet@ == highlighted(h.snippet@, terms, mark_open(), mark_close())
}

/// Position of the entry of document `d` in a posting list.
fn find_entry(entries: &Vec<(usize, TermStats)>, d: usize) -> (r: Option<usize>)
    ensures
        r matches Some(k) ==> k < entries@.len() && entries@[k as int].0 == d,
        r is None ==> forall|m: int| 0 <= m < entries@.len() ==> entries@[m].0 != d,
{
    let mut k: usize = 0;
    while k < entries.len()
        invariant
            0 <= k <= entries@.len(),
            forall|m: int| 0 <= m < k ==> entries@[m].0 != d,
        decreases entries.len() - k,
    {
        if entries[k].0 == d {
            return Some(k);
        }
        k += 1;
    }
    None
}

pub struct SearchEngine<'a> {
    pub index: &'a InvertedIndex,
}

impl<'a> SearchEngine<'a> {
    pub fn new(index: &'a InvertedIndex) -> (r: Self)
        ensures
            r.index == index,
    {
        SearchEngine { index }
    }

    /// The query terms found in document `d`.
    fn term_hits(&self, d: usize, terms: &Vec<String>) -> (r: Vec<TermHit>)
        requires
            self.index.wf(),
            d < self.index.documents@.len(),
        ensures
            hits_ok(self.index.documents@, d as int, terms.deep_view(), r@),
    {
        let ghost docs = self.index.documents@;
        let ghost tv = terms.deep_view();
        let mut out: Vec<TermHit> = Vec::new();
        let mut i: usize = 0;
        assert(tv.take(0) =~= Seq::<Seq<char>>::empty());
        assert(hit_terms(out@) =~= Seq::<Seq<char>>::empty());
        while i < terms.len()
            invariant
                self.index.wf(),
                docs == self.index.documents@,
                d < docs.len(),
                tv == terms.deep_view(),
                0 <= i <= terms@.len(),
                hit_terms(out@) == matching_terms(docs[d as int], tv.take(i as int)),
                forall|k: int| 0 <= k < out@.len() ==> stats_match((#[trigger] out@[k]).stats, docs[d as int], out@[k].term@),
                forall|k: int| 0 <= k < out@.len() ==> (#[trigger] out@[k]).document_frequency == docs_with(docs, out@[k].term@).len(),
            decreases terms.len() - i,
        {
            let t = &terms[i];
            assert(tv.take(i + 1).drop_last() =~= tv.take(i as int));
            assert(tv.take(i + 1).last() == t@);
            let ghost before = out@;
            proof {
                lemma_docs_with_contains(docs, t@, d as int);
                crate::index::inverted::lemma_docs_with_bound(docs, t@);
            }
            match self.index.postings_for(t.as_str()) {
                Some(entries) => {
                    match find_entry(entries, d) {
                        Some(k) => {
                            let hit = TermHit { term: t.clone(), stats: entries[k].1, document_frequency: entries.len() };
                            out.push(hit);
                            proof {
                                assert(docs_with(docs, t@)[k as int] == d);
                                assert(docs_with(docs, t@).contains(d as int));
                                assert(hit_terms(out@) =~= hit_terms(before).push(t@));
                                assert(hit_terms(out@) =~= matching_terms(docs[d as int], tv.take(i as int)) + seq![t@]);
                            }
                        },
                        None => {
                            proof {
                                assert(!docs_with(docs, t@).contains(d as int)) by {
                                    if docs_with(docs, t@).contains(d as int) {
                                        let m = choose|m: int| 0 <= m < docs_with(docs, t@).len() && docs_with(docs, t@)[m] == d;
                                        assert(entries@[m].0 == d);
                                    }
                                }
                                assert(hit_terms(out@) =~= matching_terms(docs[d as int], tv.take(i as int)) + Seq::<Seq<char>>::empty());
                            }
                        },
                    }
                },
                None => {
                    proof {
                        assert(!docs_with(docs, t@).contains(d as int));
                        assert(hit_terms(out@) =~= matching_terms(docs[d as int], tv.take(i as int)) + Seq::<Seq<char>>::empty());
                    }
                },
            }
            i += 1;
        }
        assert(tv.take(i as int) =~= tv);
        out
    }

    /// What the search reports of document `d`, found by `hits`.
    fn build_hit(&self, d: usize, query: &Query, hits: Vec<TermHit>) -> (r: SearchHit)
        requires
            self.index.wf(),
            d < self.index.documents@.len(),
            hits_ok(self.index.documents@, d as int, query.terms.deep_view(), hits@),
        ensures
            hit_ok(self.index.documents@, *query, d as int, r),
    {
        let document = &self.index.documents[d];
        let indexed = hit_term_strings(&hits);
        let matched_terms = display_matched_terms(document, query, &indexed);
        let phrase = phrase_hits(document, query.raw.as_str());
        let section = best_section(document, query.terms.as_slice());
        let body_chars = chars_of(section.body.as_str());
        let source = if trim_chars(body_chars.as_slice()).len() == 0 {
            document.body.clone()
        } else {
            let mut s = section.heading.clone();
            string_push(&mut s, '\n');
            s.append(section.body.as_str());
            s
        };
        let snippet_text = make_snippet(source.as_str(), query.terms.as_slice(), SNIPPET_RADIUS);
        let highlighted_snippet = highlight_with_ansi(snippet_text.as_str(), query.terms.as_slice());
        let marked_snippet = highlight_with_marks(snippet_text.as_str(), query.terms.as_slice());
        proof {
            assert(source@ == snippet_source(*document, section_view(section)));
        }
        SearchHit {
            doc_id: d,
            hits,
            matched_terms,
            phrase,
            section: section.heading,
            snippet: snippet_text,
            highlighted_snippet,
            marked_snippet,
        }
    }

    /// Every document found by the query's terms, in document order, with
    /// what the search reports of it; nothing when the query has no terms.
    pub fn hits(&self, query: &Query) -> (r: Vec<SearchHit>)
        requires
            self.index.wf(),
        ensures
            r@.len() == candidate_ids(self.index.documents@, query.terms.deep_view(), self.index.documents@.len() as int).len(),
            forall|i: int| 0 <= i < r@.len() ==> (#[trigger] r@[i]).doc_id as int
                == candidate_ids(self.index.documents@, query.terms.deep_view(), self.index.documents@.len() as int)[i],
            forall|i: int| 0 <= i < r@.len() ==> hit_ok(self.index.documents@, *query, (#[trigger] r@[i]).doc_id as int, r@[i]),
    {
        let ghost docs = self.index.documents@;
        let ghost tv = query.terms.deep_view();
        let mut out: Vec<SearchHit> = Vec::new();
        let mut d: usize = 0;
        while d < self.index.documents.len()
            invariant
                self.index.wf(),
                docs == self.index.documents@,
                tv == query.terms.deep_view(),
                0 <= d <= docs.len(),
                out@.len() == candidate_ids(docs, tv, d as int).len(),
                forall|i: int| 0 <= i < out@.len() ==> (#[trigger] out@[i]).doc_id as int == candidate_ids(docs, tv, d as int)[i],
                forall|i: int| 0 <= i < out@.len() ==> hit_ok(docs, *query, (#[trigger] out@[i]).doc_id as int, out@[i]),
            decreases docs.len() - d,
        {
            let found = self.term_hits(d, &query.terms);
            let ghost before = out@;
            proof {
                assert(hit_terms(found@).len() == found@.len());
            }
            if found.len() > 0 {
                let h = self.build_hit(d, query, found);
                out.push(h);
                proof {
                    assert(candidate_ids(docs, tv, d + 1) == candidate_ids(docs, tv, d as int) + seq![d as int]);
                    assert forall|i: int| 0 <= i < out@.len() implies (#[trigger] out@[i]).doc_id as int
                        == candidate_ids(docs, tv, d + 1)[i] by {
                        if i < before.len() {
                            assert(out@[i] == before[i]);
                        }
                    }
                    assert forall|i: int| 0 <= i < out@.len() implies hit_ok(docs, *query, (#[trigger] out@[i]).doc_id as int, out@[i]) by {
                        if i < before.len() {
                            assert(out@[i] == before[i]);
                        }
                    }
                }
            } else {
                proof {
                    assert(candidate_ids(docs, tv, d + 1) =~= candidate_ids(docs, tv, d as int));
                }
            }
            d += 1;
        }
        out
    }
}

/// The terms of the hits, in order.
fn hit_term_strings(hits: &Vec<TermHit>) -> (r: Vec<String>)
    ensures
        r.deep_view() == hit_terms(hits@),
{
    let mut out: Vec<String> = Vec::new();
    let mut i: usize = 0;
    while i < hits.len()
        invariant
            0 <= i <= hits@.len(),
            out.deep_view() == hit_terms(hits@).take(i as int),
        decreases hits.len() - i,
    {
        let ghost before = out.deep_view();
        let t = hits[i].term.clone();
        out.push(t);
        assert(out.deep_view() =~= before.push(t@));
        assert(hit_terms(hits@).take(i + 1) =~= hit_terms(hits@).take(i as int).push(hits@[i as int].term@));
        assert(out.deep_view() =~= hit_terms(hits@).take(i + 1));
        i += 1;
    }
    assert(hit_terms(hits@).take(i as int) =~= hit_terms(hits@));
    out
}

proof fn lemma_matching_terms_nonempty(doc: Document, terms: Seq<Seq<char>>)
    ensures
        matching_terms(doc, terms).len() > 0 <==> exists|i: int| 0 <= i < terms.len() && occurs(doc, #[trigger] terms[i]),
    decreases terms.len(),
{
    if terms.len() > 0 {
        let front = terms.drop_last();
        lemma_matching_terms_nonempty(doc, front);
        if exists|i: int| 0 <= i < front.len() && occurs(doc, #[trigger] front[i]) {
            let i = choose|i: int| 0 <= i < front.len() && occurs(doc, #[trigger] front[i]);
            assert(terms[i] == front[i]);
        }
        if exists|i: int| 0 <= i < terms.len() && occurs(doc, #[trigger] terms[i]) {
            let i = choose|i: int| 0 <= i < terms.len() && occurs(doc, #[trigger] terms[i]);
            if i < terms.len() - 1 {
                assert(front[i] == terms[i]);
            }
        }
    }
}

proof fn lemma_candidate_bounds(docs: Seq<Document>, terms: Seq<Seq<char>>, n: int)
    ensures
        forall|k: int| 0 <= k < candidate_ids(docs, terms, n).len() ==> 0 <= #[trigger] candidate_ids(docs, terms, n)[k] < n,
        forall|a: int, b: int| 0 <= a < b < candidate_ids(docs, terms, n).len() ==> candidate_ids(docs, terms, n)[a] < candidate_ids(docs, terms, n)[b],
    decreases n,
{
    if n > 0 {
        lemma_candidate_bounds(docs, terms, n - 1);
        let prev = candidate_ids(docs, terms, n - 1);
        let cur = candidate_ids(docs, terms, n);
        if matching_terms(docs[n - 1], terms).len() > 0 {
            assert(cur == prev + seq![n - 1]);
            assert forall|k: int| 0 <= k < cur.len() implies 0 <= #[trigger] cur[k] < n by {
                if k < prev.len() {
                    assert(cur[k] == prev[k]);
                }
            }
            assert forall|a: int, b: int| 0 <= a < b < cur.len() implies cur[a] < cur[b] by {
                assert(cur[a] == prev[a]);
                if b < prev.len() {
                    assert(cur[b] == prev[b]);
                }
            }
        } else {
            assert(cur =~= prev);
        }
    }
}

/// A document is among those a query finds exactly when one of the query's
/// terms occurs in it; the documents found come in increasing order, each
/// once. A query without terms finds nothing.
pub proof fn lemma_candidates(docs: Seq<Document>, terms: Seq<Seq<char>>, n: int)
    requires
        0 <= n <= docs.len(),
    ensures
        forall|d: int| 0 <= d < n ==> (candidate_ids(docs, terms, n).contains(d)
            <==> exists|i: int| 0 <= i < terms.len() && occurs(docs[d], #[trigger] terms[i])),
        forall|a: int, b: int| 0 <= a < b < candidate_ids(docs, terms, n).len() ==> candidate_ids(docs, terms, n)[a] < candidate_ids(docs, terms, n)[b],
        terms.len() == 0 ==> candidate_ids(docs, terms, n).len() == 0,
    decreases n,
{
    lemma_candidate_bounds(docs, terms, n);
    if n > 0 {
        lemma_candidates(docs, terms, n - 1);
        lemma_candidate_bounds(docs, terms, n - 1);
        let prev = candidate_ids(docs, terms, n - 1);
        let cur = candidate_ids(docs, terms, n);
        lemma_matching_terms_nonempty(docs[n - 1], terms);
        assert forall|d: int| 0 <= d < n implies (cur.contains(d)
            <==> exists|i: int| 0 <= i < terms.len() && occurs(docs[d], #[trigger] terms[i])) by {
            lemma_matching_terms_nonempty(docs[d], terms);
            if d < n - 1 {
                if cur.contains(d) {
                    let k = choose|k: int| 0 <= k < cur.len() && cur[k] == d;
                    if k < prev.len() {
                        assert(prev[k] == d);
                    }
                }
                if prev.contains(d) {
                    let k = choose|k: int| 0 <= k < prev.len() && prev[k] == d;
                    assert(cur[k] == d);
                }
            } else {
                if prev.contains(d) {
                    let k = choose|k: int| 0 <= k < prev.len() && prev[k] == d;
                }
                if matching_terms(docs[d], terms).len() > 0 {
                    assert(cur[prev.len() as int] == d);
                } else {
                    assert(cur == prev);
                }
            }
        }
        if terms.len() == 0 {
            assert(matching_terms(docs[n - 1], terms).len() == 0);
        }
    }
}

} // verus!
