//! The inverted index: for each term, the documents in which it occurs and
//! how often it occurs in each of their fields.
use vstd::prelude::*;

use crate::ingest::tokenizer::{is_term, lemma_tokens_are_terms, tokens, SimpleTokenizer, Tokenizer};
use crate::model::{Document, Field};

verus! {

/// How often a term occurs in each field of one document.
#[derive(Debug, Clone, Copy)]
pub struct TermStats {
    pub title: u32,
    pub tag: u32,
    pub heading: u32,
    pub body: u32,
    pub file_name: u32,
}

impl Default for TermStats {
    fn default() -> (r: Self)
        ensures
            r == zero_stats(),
    {
        TermStats { title: 0, tag: 0, heading: 0, body: 0, file_name: 0 }
    }
}

pub open spec fn zero_stats() -> TermStats {
    TermStats { title: 0, tag: 0, heading: 0, body: 0, file_name: 0 }
}

/// The counter of `s` that belongs to field `f`.
pub open spec fn field_value(s: TermStats, f: Field) -> nat {
    match f {
        Field::Title => s.title as nat,
        Field::Tag => s.tag as nat,
        Field::Heading => s.heading as nat,
        Field::Body => s.body as nat,
        Field::FileName => s.file_name as nat,
    }
}

/// Sum of the five counters.
pub open spec fn stats_total(s: TermStats) -> nat {
    (s.title + s.tag + s.heading + s.body + s.file_name) as nat
}

impl TermStats {
    /// Counts one more occurrence in `field`.
    pub fn add(&mut self, field: Field)
        requires
            field_value(*old(self), field) < u32::MAX,
        ensures
            forall|g: Field| #[trigger] field_value(*final(self), g) == field_value(*old(self), g) + (if g == field { 1nat } else { 0nat }),
    {
        match field {
            Field::Title => self.title += 1,
            Field::Tag => self.tag += 1,
            Field::Heading => self.heading += 1,
            Field::Body => self.body += 1,
            Field::FileName => self.file_name += 1,
        }
    }

    /// Occurrences over all fields.
    pub fn total(self) -> (r: u32)
        requires
            stats_total(self) <= u32::MAX,
        ensures
            r == stats_total(self),
    {
        self.title + self.tag + self.heading + self.body + self.file_name
    }
}

/// Number of times `t` occurs in `s`.
pub open spec fn count_of(s: Seq<Seq<char>>, t: Seq<char>) -> nat
    decreases s.len(),
{
    if s.len() == 0 {
        0
    } else {
        count_of(s.drop_last(), t) + (if s.last() == t { 1nat } else { 0nat })
    }
}

/// The terms of several texts, one text after the other.
pub open spec fn flat_tokens(texts: Seq<Seq<char>>) -> Seq<Seq<char>>
    decreases texts.len(),
{
    if texts.len() == 0 {
        Seq::empty()
    } else {
        flat_tokens(texts.drop_last()) + tokens(texts.last())
    }
}

/// The terms of one field of a document.
pub open spec fn field_terms(doc: Document, f: Field) -> Seq<Seq<char>> {
    match f {
        Field::Title => tokens(doc.title@),
        Field::Tag => flat_tokens(doc.tags.deep_view()),
        Field::Heading => flat_tokens(doc.headings.deep_view()),
        Field::Body => tokens(doc.body@),
        Field::FileName => tokens(doc.file_name@),
    }
}

/// Number of occurrences of `t` in field `f` of `doc`.
pub open spec fn term_count(doc: Document, f: Field, t: Seq<char>) -> nat {
    count_of(field_terms(doc, f), t)
}

/// `s` holds, field by field, the occurrences of `t` in `doc`.
pub open spec fn stats_match(s: TermStats, doc: Document, t: Seq<char>) -> bool {
    forall|f: Field| #[trigger] field_value(s, f) == term_count(doc, f, t)
}

/// Whether `t` occurs anywhere in `doc`.
pub open spec fn occurs(doc: Document, t: Seq<char>) -> bool {
    exists|f: Field| #[trigger] term_count(doc, f, t) > 0
}

/// The positions in `docs` of the documents in which `t` occurs, in
/// increasing order.
pub open spec fn docs_with(docs: Seq<Document>, t: Seq<char>) -> Seq<int>
    decreases docs.len(),
{
    if docs.len() == 0 {
        Seq::empty()
    } else if occurs(docs.last(), t) {
        docs_with(docs.drop_last(), t).push(docs.len() - 1)
    } else {
        docs_with(docs.drop_last(), t)
    }
}

/// No term occurs more than `u32::MAX` times in one field of `doc`: each of
/// its counters fits in `u32`.
pub open spec fn doc_counts_fit(doc: Document) -> bool {
    forall|t: Seq<char>, g: Field| #[trigger] term_count(doc, g, t) <= u32::MAX
}

/// The documents' counters fit in `u32`: in no document does a term occur
/// more than `u32::MAX` times in one field.
pub open spec fn counts_fit(docs: Seq<Document>) -> bool {
    forall|i: int| 0 <= i < docs.len() ==> doc_counts_fit(#[trigger] docs[i])
}

/// Postings of one document under a term.
pub type Postings = Vec<(usize, TermStats)>;

/// One term with its postings.
#[derive(Debug, Clone)]
pub struct PostingList {
    pub term: String,
    pub entries: Postings,
}

#[derive(Debug, Clone)]
pub struct InvertedIndex {
    pub documents: Vec<Document>,
    pub postings: Vec<PostingList>,
}

/// `entries` lists the documents of `docs` in which `t` occurs, in
/// increasing order, each with its counters.
pub open spec fn entries_ok(entries: Seq<(usize, TermStats)>, docs: Seq<Document>, t: Seq<char>) -> bool {
    &&& entries.len() == docs_with(docs, t).len()
    &&& forall|i: int| 0 <= i < entries.len() ==> (#[trigger] entries[i]).0 as int == docs_with(docs, t)[i]
    &&& forall|i: int| 0 <= i < entries.len() ==> stats_match((#[trigger] entries[i]).1, docs[entries[i].0 as int], t)
}

/// Position of `t` in `keys`, if it is there.
pub open spec fn key_index(keys: Seq<Seq<char>>, t: Seq<char>) -> Option<int> {
    if exists|i: int| 0 <= i < keys.len() && keys[i] == t {
        Some(choose|i: int| 0 <= i < keys.len() && keys[i] == t)
    } else {
        None
    }
}

pub proof fn lemma_key_index(keys: Seq<Seq<char>>, i: int)
    requires
        keys.no_duplicates(),
        0 <= i < keys.len(),
    ensures
        key_index(keys, keys[i]) == Some(i),
{
    let t = keys[i];
    let j = choose|j: int| 0 <= j < keys.len() && keys[j] == t;
}

pub proof fn lemma_key_index_absent(keys: Seq<Seq<char>>, t: Seq<char>)
    requires
        forall|i: int| 0 <= i < keys.len() ==> keys[i] != t,
    ensures
        key_index(keys, t) is None,
{
}

/// The terms of the posting lists, in list order.
pub open spec fn list_terms(lists: Seq<PostingList>) -> Seq<Seq<char>> {
    lists.map_values(|l: PostingList| l.term@)
}

/// What the posting lists say of `t`: its entries, empty when it has none.
pub open spec fn lookup(lists: Seq<PostingList>, t: Seq<char>) -> Seq<(usize, TermStats)> {
    match key_index(list_terms(lists), t) {
        Some(i) => lists[i].entries@,
        None => Seq::empty(),
    }
}

/// Counters of `t` in a list of distinct terms with their counters.
pub open spec fn count_get(terms: Seq<Seq<char>>, stats: Seq<TermStats>, t: Seq<char>) -> TermStats {
    match key_index(terms, t) {
        Some(i) => stats[i],
        None => zero_stats(),
    }
}

pub proof fn lemma_count_of_concat(a: Seq<Seq<char>>, b: Seq<Seq<char>>, t: Seq<char>)
    ensures
        count_of(a + b, t) == count_of(a, t) + count_of(b, t),
    decreases b.len(),
{
    if b.len() > 0 {
        assert((a + b).drop_last() =~= a + b.drop_last());
        lemma_count_of_concat(a, b.drop_last(), t);
    } else {
        assert(a + b =~= a);
    }
}

pub proof fn lemma_count_of_bound(s: Seq<Seq<char>>, t: Seq<char>)
    ensures
        count_of(s, t) <= s.len(),
    decreases s.len(),
{
    if s.len() > 0 {
        lemma_count_of_bound(s.drop_last(), t);
    }
}

pub proof fn lemma_flat_tokens_step(texts: Seq<Seq<char>>, k: int)
    requires
        0 <= k < texts.len(),
    ensures
        flat_tokens(texts.take(k + 1)) == flat_tokens(texts.take(k)) + tokens(texts[k]),
{
    assert(texts.take(k + 1).drop_last() =~= texts.take(k));
}

pub proof fn lemma_flat_tokens_prefix_count(texts: Seq<Seq<char>>, k: int, t: Seq<char>)
    requires
        0 <= k <= texts.len(),
    ensures
        count_of(flat_tokens(texts.take(k)), t) <= count_of(flat_tokens(texts), t),
    decreases texts.len() - k,
{
    if k < texts.len() {
        lemma_flat_tokens_step(texts, k);
        lemma_count_of_concat(flat_tokens(texts.take(k)), tokens(texts[k]), t);
        lemma_flat_tokens_prefix_count(texts, k + 1, t);
    } else {
        assert(texts.take(k) =~= texts);
    }
}

pub proof fn lemma_entries_skip(entries: Seq<(usize, TermStats)>, docs: Seq<Document>, d: int, t: Seq<char>)
    requires
        0 <= d < docs.len(),
        entries_ok(entries, docs.take(d), t),
        !occurs(docs[d], t),
    ensures
        entries_ok(entries, docs.take(d + 1), t),
{
    assert(docs.take(d + 1).drop_last() =~= docs.take(d));
    assert(docs_with(docs.take(d + 1), t) == docs_with(docs.take(d), t));
    lemma_docs_with_bound(docs.take(d), t);
}

pub proof fn lemma_entries_push(entries: Seq<(usize, TermStats)>, docs: Seq<Document>, d: int, t: Seq<char>, s: TermStats)
    requires
        0 <= d < docs.len(),
        d <= usize::MAX,
        entries_ok(entries, docs.take(d), t),
        occurs(docs[d], t),
        stats_match(s, docs[d], t),
    ensures
        entries_ok(entries.push((d as usize, s)), docs.take(d + 1), t),
{
    assert(docs.take(d + 1).drop_last() =~= docs.take(d));
    assert(docs_with(docs.take(d + 1), t) == docs_with(docs.take(d), t).push(d));
    lemma_docs_with_bound(docs.take(d), t);
}

pub proof fn lemma_docs_with_bound(docs: Seq<Document>, t: Seq<char>)
    ensures
        forall|i: int| 0 <= i < docs_with(docs, t).len() ==> 0 <= #[trigger] docs_with(docs, t)[i] < docs.len(),
        docs_with(docs, t).len() <= docs.len(),
    decreases docs.len(),
{
    if docs.len() > 0 {
        lemma_docs_with_bound(docs.drop_last(), t);
    }
}

impl InvertedIndex {
    /// The index is consistent with its documents: for every term, the
    /// posting list holds exactly the documents in which it occurs, with
    /// their counters; no list is empty and no term has two lists.
    pub open spec fn wf(&self) -> bool {
        &&& list_terms(self.postings@).no_duplicates()
        &&& forall|i: int| 0 <= i < self.postings@.len() ==> (#[trigger] self.postings@[i]).entries@.len() > 0
        &&& forall|t: Seq<char>| #[trigger] entries_ok(lookup(self.postings@, t), self.documents@, t)
    }

    /// The posting list of `t` (empty when `t` occurs nowhere).
    pub open spec fn postings_of(&self, t: Seq<char>) -> Seq<(usize, TermStats)> {
        lookup(self.postings@, t)
    }

    pub fn build(documents: Vec<Document>) -> (r: Self)
        requires
            counts_fit(documents@),
        ensures
            r.wf(),
            r.documents@ == documents@,
    {
        let mut postings: Vec<PostingList> = Vec::new();
        let mut d: usize = 0;
        while d < documents.len()
            invariant
                0 <= d <= documents@.len(),
                counts_fit(documents@),
                list_terms(postings@).no_duplicates(),
                forall|i: int| 0 <= i < postings@.len() ==> (#[trigger] postings@[i]).entries@.len() > 0,
                forall|t: Seq<char>| #[trigger] entries_ok(lookup(postings@, t), documents@.take(d as int), t),
            decreases documents.len() - d,
        {
            let doc = &documents[d];
            let ghost docs = documents@;
            let (terms, stats) = document_counts(doc);
            proof {
                assert(docs[d as int] == *doc);
            }
            merge_document(&mut postings, d, &terms, &stats, Ghost(docs));
            d += 1;
        }
        assert(documents@.take(d as int) =~= documents@);
        InvertedIndex { documents, postings }
    }

    /// The documents in which `term` occurs, each with its counters, in
    /// increasing document order; `None` when it occurs nowhere.
    pub fn postings_for(&self, term: &str) -> (r: Option<&Postings>)
        requires
            self.wf(),
        ensures
            r is None <==> docs_with(self.documents@, term@).len() == 0,
            r matches Some(p) ==> entries_ok(p@, self.documents@, term@),
    {
        let key: String = term.to_owned();
        match find_list_index(&self.postings, &key) {
            Some(i) => {
                proof {
                    lemma_key_index(list_terms(self.postings@), i as int);
                    assert(entries_ok(lookup(self.postings@, term@), self.documents@, term@));
                }
                Some(&self.postings[i].entries)
            },
            None => {
                proof {
                    lemma_key_index_absent(list_terms(self.postings@), term@);
                    assert(entries_ok(lookup(self.postings@, term@), self.documents@, term@));
                }
                None
            },
        }
    }

    /// Number of indexed documents.
    pub fn document_count(&self) -> (r: usize)
        ensures
            r == self.documents@.len(),
    {
        self.documents.len()
    }

    /// Number of documents in which `term` occurs.
    pub fn document_frequency(&self, term: &str) -> (r: usize)
        requires
            self.wf(),
        ensures
            r == docs_with(self.documents@, term@).len(),
    {
        match self.postings_for(term) {
            Some(p) => p.len(),
            None => 0,
        }
    }
}


/// Position of `t` among `terms`.
fn find_term(terms: &Vec<String>, t: &String) -> (r: Option<usize>)
    ensures
        r matches Some(i) ==> i < terms@.len() && terms@[i as int]@ == t@,
        r is None ==> forall|i: int| 0 <= i < terms@.len() ==> terms@[i]@ != t@,
{
    let mut i: usize = 0;
    while i < terms.len()
        invariant
            0 <= i <= terms@.len(),
            forall|k: int| 0 <= k < i ==> terms@[k]@ != t@,
        decreases terms.len() - i,
    {
        if terms[i] == *t {
            return Some(i);
        }
        i += 1;
    }
    None
}

/// Position of the posting list of `t`.
fn find_list_index(postings: &Vec<PostingList>, t: &String) -> (r: Option<usize>)
    ensures
        r matches Some(i) ==> i < postings@.len() && list_terms(postings@)[i as int] == t@,
        r is None ==> forall|i: int| 0 <= i < postings@.len() ==> list_terms(postings@)[i] != t@,
{
    let mut i: usize = 0;
    while i < postings.len()
        invariant
            0 <= i <= postings@.len(),
            forall|k: int| 0 <= k < i ==> list_terms(postings@)[k] != t@,
        decreases postings.len() - i,
    {
        if postings[i].term == *t {
            return Some(i);
        }
        i += 1;
    }
    None
}

/// Counts the terms of `text` into the field `field` of the per-term
/// counters (`terms` and `stats` side by side).
fn add_text(terms: &mut Vec<String>, stats: &mut Vec<TermStats>, field: Field, text: &String)
    requires
        old(terms)@.len() == old(stats)@.len(),
        old(terms).deep_view().no_duplicates(),
        forall|i: int| 0 <= i < old(stats)@.len() ==> stats_total(#[trigger] old(stats)@[i]) > 0,
        forall|t: Seq<char>| #[trigger] field_value(count_get(old(terms).deep_view(), old(stats)@, t), field) + count_of(tokens(text@), t) <= u32::MAX,
    ensures
        final(terms)@.len() == final(stats)@.len(),
        final(terms).deep_view().no_duplicates(),
        forall|i: int| 0 <= i < final(stats)@.len() ==> stats_total(#[trigger] final(stats)@[i]) > 0,
        forall|t: Seq<char>, g: Field| #[trigger] field_value(count_get(final(terms).deep_view(), final(stats)@, t), g)
            == field_value(count_get(old(terms).deep_view(), old(stats)@, t), g) + (if g == field { count_of(tokens(text@), t) } else { 0nat }),
{
    let tokenizer = SimpleTokenizer;
    let toks = tokenizer.tokenize(text.as_str());
    let ghost tv = toks.deep_view();
    let ghost old_terms = terms.deep_view();
    let ghost old_stats = stats@;
    let mut k: usize = 0;
    while k < toks.len()
        invariant
            0 <= k <= toks@.len(),
            tv == toks.deep_view(),
            tv == tokens(text@),
            terms@.len() == stats@.len(),
            terms.deep_view().no_duplicates(),
            forall|i: int| 0 <= i < stats@.len() ==> stats_total(#[trigger] stats@[i]) > 0,
            forall|t: Seq<char>| #[trigger] field_value(count_get(old_terms, old_stats, t), field) + count_of(tv, t) <= u32::MAX,
            forall|t: Seq<char>, g: Field| #[trigger] field_value(count_get(terms.deep_view(), stats@, t), g)
                == field_value(count_get(old_terms, old_stats, t), g) + (if g == field { count_of(tv.take(k as int), t) } else { 0nat }),
        decreases toks.len() - k,
    {
        let x = &toks[k];
        let ghost xv = tv[k as int];
        assert(x@ == xv);
        assert(tv.take(k + 1).drop_last() =~= tv.take(k as int));
        let ghost before_terms = terms.deep_view();
        let ghost before_stats = stats@;
        proof {
            assert(tv.take(k + 1) + tv.skip(k + 1) =~= tv);
            lemma_count_of_concat(tv.take(k + 1), tv.skip(k + 1), xv);
            assert(count_of(tv.take(k + 1), xv) == count_of(tv.take(k as int), xv) + 1);
            assert(field_value(count_get(old_terms, old_stats, xv), field) + count_of(tv, xv) <= u32::MAX);
            assert(field_value(count_get(before_terms, before_stats, xv), field) == field_value(count_get(old_terms, old_stats, xv), field) + count_of(tv.take(k as int), xv));
            assert forall|t: Seq<char>| t != xv implies #[trigger] count_of(tv.take(k + 1), t) == count_of(tv.take(k as int), t) by {}
        }
        match find_term(terms, x) {
            Some(i) => {
                proof {
                    lemma_key_index(before_terms, i as int);
                }
                let mut e = stats[i];
                e.add(field);
                assert(field_value(e, field) >= 1);
                assert(stats_total(e) > 0);
                stats.set(i, e);
                proof {
                    assert forall|t: Seq<char>, g: Field| #[trigger] field_value(count_get(terms.deep_view(), stats@, t), g)
                        == field_value(count_get(old_terms, old_stats, t), g) + (if g == field { count_of(tv.take(k + 1), t) } else { 0nat }) by {
                        assert(terms.deep_view() =~= before_terms);
                        assert(field_value(count_get(before_terms, before_stats, t), g) == field_value(count_get(old_terms, old_stats, t), g) + (if g == field { count_of(tv.take(k as int), t) } else { 0nat }));
                        if t == xv {
                            assert(count_get(terms.deep_view(), stats@, t) == e);
                        } else {
                            match key_index(before_terms, t) {
                                Some(j) => {
                                    lemma_key_index(before_terms, j);
                                    assert(j != i);
                                    assert(stats@[j] == before_stats[j]);
                                },
                                None => {},
                            }
                        }
                    }
                }
            },
            None => {
                let mut e = TermStats { title: 0, tag: 0, heading: 0, body: 0, file_name: 0 };
                e.add(field);
                assert(field_value(e, field) >= 1);
                assert(stats_total(e) > 0);
                terms.push(x.clone());
                stats.push(e);
                proof {
                    let nt = terms.deep_view();
                    assert(nt =~= before_terms.push(xv));
                    assert(nt.no_duplicates());
                    lemma_key_index(nt, nt.len() - 1);
                    lemma_key_index_absent(before_terms, xv);
                    assert forall|t: Seq<char>, g: Field| #[trigger] field_value(count_get(terms.deep_view(), stats@, t), g)
                        == field_value(count_get(old_terms, old_stats, t), g) + (if g == field { count_of(tv.take(k + 1), t) } else { 0nat }) by {
                        assert(field_value(count_get(before_terms, before_stats, t), g) == field_value(count_get(old_terms, old_stats, t), g) + (if g == field { count_of(tv.take(k as int), t) } else { 0nat }));
                        if t == xv {
                            assert(count_get(before_terms, before_stats, t) == zero_stats());
                            assert(count_get(nt, stats@, t) == e);
                        } else {
                            match key_index(before_terms, t) {
                                Some(j) => {
                                    lemma_key_index(before_terms, j);
                                    lemma_key_index(nt, j);
                                },
                                None => {
                                    lemma_key_index_absent(nt, t);
                                },
                            }
                        }
                    }
                }
            },
        }
        k += 1;
    }
    assert(tv.take(k as int) =~= tv);
}

/// Counters of every term of one document.
fn document_counts(doc: &Document) -> (r: (Vec<String>, Vec<TermStats>))
    requires
        doc_counts_fit(*doc),
    ensures
        r.0@.len() == r.1@.len(),
        r.0.deep_view().no_duplicates(),
        forall|i: int| 0 <= i < r.1@.len() ==> stats_total(#[trigger] r.1@[i]) > 0,
        forall|t: Seq<char>, g: Field| #[trigger] field_value(count_get(r.0.deep_view(), r.1@, t), g) == term_count(*doc, g, t),
{
    let mut terms: Vec<String> = Vec::new();
    let mut stats: Vec<TermStats> = Vec::new();
    proof {
        assert(terms.deep_view() =~= Seq::<Seq<char>>::empty());
        assert forall|t: Seq<char>| #[trigger] field_value(count_get(terms.deep_view(), stats@, t), Field::Title) + count_of(tokens(doc.title@), t) <= u32::MAX by {
            assert(term_count(*doc, Field::Title, t) <= u32::MAX);
        }
    }
    add_text(&mut terms, &mut stats, Field::Title, &doc.title);
    proof {
        assert forall|t: Seq<char>| #[trigger] field_value(count_get(terms.deep_view(), stats@, t), Field::FileName) + count_of(tokens(doc.file_name@), t) <= u32::MAX by {
            assert(term_count(*doc, Field::FileName, t) <= u32::MAX);
        }
    }
    add_text(&mut terms, &mut stats, Field::FileName, &doc.file_name);
    proof {
        assert forall|t: Seq<char>| #[trigger] field_value(count_get(terms.deep_view(), stats@, t), Field::Body) + count_of(tokens(doc.body@), t) <= u32::MAX by {
            assert(term_count(*doc, Field::Body, t) <= u32::MAX);
        }
    }
    add_text(&mut terms, &mut stats, Field::Body, &doc.body);
    let ghost tags = doc.tags.deep_view();
    let ghost after_body_terms = terms.deep_view();
    let ghost after_body_stats = stats@;
    let mut k: usize = 0;
    assert(tags.take(0) =~= Seq::<Seq<char>>::empty());
    while k < doc.tags.len()
        invariant
            0 <= k <= doc.tags@.len(),
            tags == doc.tags.deep_view(),
            doc_counts_fit(*doc),
            terms@.len() == stats@.len(),
            terms.deep_view().no_duplicates(),
            forall|i: int| 0 <= i < stats@.len() ==> stats_total(#[trigger] stats@[i]) > 0,
            forall|t: Seq<char>, g: Field| #[trigger] field_value(count_get(terms.deep_view(), stats@, t), g)
                == (match g {
                    Field::Title => term_count(*doc, Field::Title, t),
                    Field::FileName => term_count(*doc, Field::FileName, t),
                    Field::Body => term_count(*doc, Field::Body, t),
                    Field::Tag => count_of(flat_tokens(tags.take(k as int)), t),
                    Field::Heading => 0nat,
                }),
        decreases doc.tags.len() - k,
    {
        let tag = &doc.tags[k];
        proof {
            assert(tag@ == tags[k as int]);
            lemma_flat_tokens_step(tags, k as int);
            assert forall|t: Seq<char>| #[trigger] field_value(count_get(terms.deep_view(), stats@, t), Field::Tag) + count_of(tokens(tag@), t) <= u32::MAX by {
                lemma_count_of_concat(flat_tokens(tags.take(k as int)), tokens(tags[k as int]), t);
                lemma_flat_tokens_prefix_count(tags, k + 1, t);
                assert(term_count(*doc, Field::Tag, t) <= u32::MAX);
            }
        }
        add_text(&mut terms, &mut stats, Field::Tag, tag);
        proof {
            assert forall|t: Seq<char>| #[trigger] count_of(flat_tokens(tags.take(k + 1)), t) == count_of(flat_tokens(tags.take(k as int)), t) + count_of(tokens(tag@), t) by {
                lemma_count_of_concat(flat_tokens(tags.take(k as int)), tokens(tags[k as int]), t);
            }
        }
        k += 1;
    }
    assert(tags.take(k as int) =~= tags);
    let ghost heads = doc.headings.deep_view();
    let mut h: usize = 0;
    assert(heads.take(0) =~= Seq::<Seq<char>>::empty());
    while h < doc.headings.len()
        invariant
            0 <= h <= doc.headings@.len(),
            heads == doc.headings.deep_view(),
            doc_counts_fit(*doc),
            terms@.len() == stats@.len(),
            terms.deep_view().no_duplicates(),
            forall|i: int| 0 <= i < stats@.len() ==> stats_total(#[trigger] stats@[i]) > 0,
            forall|t: Seq<char>, g: Field| #[trigger] field_value(count_get(terms.deep_view(), stats@, t), g)
                == (match g {
                    Field::Title => term_count(*doc, Field::Title, t),
                    Field::FileName => term_count(*doc, Field::FileName, t),
                    Field::Body => term_count(*doc, Field::Body, t),
                    Field::Tag => term_count(*doc, Field::Tag, t),
                    Field::Heading => count_of(flat_tokens(heads.take(h as int)), t),
                }),
        decreases doc.headings.len() - h,
    {
        let heading = &doc.headings[h];
        proof {
            assert(heading@ == heads[h as int]);
            lemma_flat_tokens_step(heads, h as int);
            assert forall|t: Seq<char>| #[trigger] field_value(count_get(terms.deep_view(), stats@, t), Field::Heading) + count_of(tokens(heading@), t) <= u32::MAX by {
                lemma_count_of_concat(flat_tokens(heads.take(h as int)), tokens(heads[h as int]), t);
                lemma_flat_tokens_prefix_count(heads, h + 1, t);
                assert(term_count(*doc, Field::Heading, t) <= u32::MAX);
            }
        }
        add_text(&mut terms, &mut stats, Field::Heading, heading);
        proof {
            assert forall|t: Seq<char>| #[trigger] count_of(flat_tokens(heads.take(h + 1)), t) == count_of(flat_tokens(heads.take(h as int)), t) + count_of(tokens(heading@), t) by {
                lemma_count_of_concat(flat_tokens(heads.take(h as int)), tokens(heads[h as int]), t);
            }
        }
        h += 1;
    }
    assert(heads.take(h as int) =~= heads);
    (terms, stats)
}

/// Documents already merged for term `u`: `d + 1` once its counters in
/// document `d` are merged, `d` before.
pub open spec fn merged_prefix(done: Seq<Seq<char>>, d: int, u: Seq<char>) -> int {
    if done.contains(u) {
        d + 1
    } else {
        d
    }
}

/// Adds the counters of document `d` to the posting lists.
fn merge_document(postings: &mut Vec<PostingList>, d: usize, terms: &Vec<String>, stats: &Vec<TermStats>, Ghost(docs): Ghost<Seq<Document>>)
    requires
        d < docs.len(),
        terms@.len() == stats@.len(),
        terms.deep_view().no_duplicates(),
        forall|i: int| 0 <= i < stats@.len() ==> stats_total(#[trigger] stats@[i]) > 0,
        forall|t: Seq<char>, g: Field| #[trigger] field_value(count_get(terms.deep_view(), stats@, t), g) == term_count(docs[d as int], g, t),
        list_terms(old(postings)@).no_duplicates(),
        forall|i: int| 0 <= i < old(postings)@.len() ==> (#[trigger] old(postings)@[i]).entries@.len() > 0,
        forall|t: Seq<char>| #[trigger] entries_ok(lookup(old(postings)@, t), docs.take(d as int), t),
    ensures
        list_terms(final(postings)@).no_duplicates(),
        forall|i: int| 0 <= i < final(postings)@.len() ==> (#[trigger] final(postings)@[i]).entries@.len() > 0,
        forall|t: Seq<char>| #[trigger] entries_ok(lookup(final(postings)@, t), docs.take(d + 1), t),
{
    let ghost tv = terms.deep_view();
    let ghost doc = docs[d as int];
    proof {
        assert forall|i: int| 0 <= i < tv.len() implies occurs(doc, #[trigger] tv[i]) && stats_match(stats@[i], doc, tv[i]) by {
            lemma_key_index(tv, i);
            assert(count_get(tv, stats@, tv[i]) == stats@[i]);
            assert forall|f: Field| #[trigger] field_value(stats@[i], f) == term_count(doc, f, tv[i]) by {
                assert(field_value(count_get(tv, stats@, tv[i]), f) == term_count(doc, f, tv[i]));
            }
            let st = stats@[i];
            assert(stats_total(st) > 0);
            if st.title > 0 {
                assert(field_value(st, Field::Title) > 0);
                assert(term_count(doc, Field::Title, tv[i]) > 0);
            } else if st.tag > 0 {
                assert(field_value(st, Field::Tag) > 0);
                assert(term_count(doc, Field::Tag, tv[i]) > 0);
            } else if st.heading > 0 {
                assert(field_value(st, Field::Heading) > 0);
                assert(term_count(doc, Field::Heading, tv[i]) > 0);
            } else if st.body > 0 {
                assert(field_value(st, Field::Body) > 0);
                assert(term_count(doc, Field::Body, tv[i]) > 0);
            } else {
                assert(field_value(st, Field::FileName) > 0);
                assert(term_count(doc, Field::FileName, tv[i]) > 0);
            }
        }
    }
    let mut m: usize = 0;
    while m < terms.len()
        invariant
            0 <= m <= terms@.len(),
            d < docs.len(),
            doc == docs[d as int],
            tv == terms.deep_view(),
            terms@.len() == stats@.len(),
            tv.no_duplicates(),
            forall|i: int| 0 <= i < tv.len() ==> occurs(doc, #[trigger] tv[i]) && stats_match(stats@[i], doc, tv[i]),
            list_terms(postings@).no_duplicates(),
            forall|i: int| 0 <= i < postings@.len() ==> (#[trigger] postings@[i]).entries@.len() > 0,
            forall|t: Seq<char>| #[trigger] entries_ok(lookup(postings@, t), docs.take(merged_prefix(tv.take(m as int), d as int, t)), t),
        decreases terms.len() - m,
    {
        let t = &terms[m];
        let s = stats[m];
        let ghost tval = tv[m as int];
        assert(t@ == tval);
        let ghost before = postings@;
        let ghost before_terms = list_terms(before);
        proof {
            assert(!tv.take(m as int).contains(tval)) by {
                if tv.take(m as int).contains(tval) {
                    let j = choose|j: int| 0 <= j < m && tv.take(m as int)[j] == tval;
                    assert(tv[j] == tv[m as int]);
                }
            }
            assert forall|u: Seq<char>| u != tval implies (tv.take(m + 1).contains(u) == tv.take(m as int).contains(u)) by {
                assert(tv.take(m + 1) =~= tv.take(m as int).push(tval));
            }
            assert(tv.take(m + 1).contains(tval)) by {
                assert(tv.take(m + 1)[m as int] == tval);
            }
            assert(entries_ok(lookup(before, tval), docs.take(merged_prefix(tv.take(m as int), d as int, tval)), tval));
            assert(merged_prefix(tv.take(m as int), d as int, tval) == d);
            assert(occurs(doc, tv[m as int]) && stats_match(stats@[m as int], doc, tv[m as int]));
            lemma_entries_push(lookup(before, tval), docs, d as int, tval, s);
            assert(merged_prefix(tv.take(m + 1), d as int, tval) == d + 1);
            assert forall|u: Seq<char>| u != tval implies #[trigger] merged_prefix(tv.take(m + 1), d as int, u) == merged_prefix(tv.take(m as int), d as int, u) by {
                assert(tv.take(m + 1) =~= tv.take(m as int).push(tval));
            }
        }
        match find_list_index(postings, t) {
            Some(i) => {
                proof {
                    lemma_key_index(before_terms, i as int);
                }
                postings[i].entries.push((d, s));
                proof {
                    let now = postings@;
                    assert(list_terms(now) =~= before_terms);
                    assert(now[i as int].entries@ == before[i as int].entries@.push((d, s)));
                    assert forall|u: Seq<char>| #[trigger] entries_ok(lookup(postings@, u), docs.take(merged_prefix(tv.take(m + 1), d as int, u)), u) by {
                        if u != tval {
                            assert(merged_prefix(tv.take(m + 1), d as int, u) == merged_prefix(tv.take(m as int), d as int, u));
                            assert(entries_ok(lookup(before, u), docs.take(merged_prefix(tv.take(m as int), d as int, u)), u));
                            match key_index(before_terms, u) {
                                Some(j) => {
                                    lemma_key_index(before_terms, j);
                                    assert(j != i);
                                    assert(lookup(now, u) == lookup(before, u));
                                },
                                None => {},
                            }
                        } else {
                            assert(lookup(now, u) == lookup(before, u).push((d, s)));
                        }
                    }
                }
            },
            None => {
                let mut entries: Vec<(usize, TermStats)> = Vec::new();
                entries.push((d, s));
                postings.push(PostingList { term: t.clone(), entries });
                proof {
                    let now = postings@;
                    let nt = list_terms(now);
                    assert(nt =~= before_terms.push(tval));
                    lemma_key_index_absent(before_terms, tval);
                    assert(nt.no_duplicates());
                    lemma_key_index(nt, nt.len() - 1);
                    assert(lookup(before, tval) =~= Seq::<(usize, TermStats)>::empty());
                    assert(lookup(now, tval) =~= Seq::<(usize, TermStats)>::empty().push((d, s)));
                    assert forall|u: Seq<char>| #[trigger] entries_ok(lookup(postings@, u), docs.take(merged_prefix(tv.take(m + 1), d as int, u)), u) by {
                        if u != tval {
                            assert(merged_prefix(tv.take(m + 1), d as int, u) == merged_prefix(tv.take(m as int), d as int, u));
                            assert(entries_ok(lookup(before, u), docs.take(merged_prefix(tv.take(m as int), d as int, u)), u));
                            match key_index(before_terms, u) {
                                Some(j) => {
                                    lemma_key_index(before_terms, j);
                                    lemma_key_index(nt, j);
                                    assert(lookup(now, u) == lookup(before, u));
                                },
                                None => {
                                    lemma_key_index_absent(nt, u);
                                },
                            }
                        }
                    }
                    assert forall|k: int| 0 <= k < now.len() implies (#[trigger] now[k]).entries@.len() > 0 by {
                        if k < before.len() {
                            assert(now[k] == before[k]);
                        }
                    }
                }
            },
        }
        m += 1;
    }
    proof {
        assert(tv.take(m as int) =~= tv);
        assert forall|t: Seq<char>| #[trigger] entries_ok(lookup(postings@, t), docs.take(d + 1), t) by {
            assert(entries_ok(lookup(postings@, t), docs.take(merged_prefix(tv.take(m as int), d as int, t)), t));
            if !tv.contains(t) {
                assert(!occurs(doc, t)) by {
                    lemma_key_index_absent(tv, t);
                    if occurs(doc, t) {
                        let f = choose|f: Field| #[trigger] term_count(doc, f, t) > 0;
                        assert(field_value(count_get(tv, stats@, t), f) == term_count(doc, f, t));
                    }
                }
                lemma_entries_skip(lookup(postings@, t), docs, d as int, t);
            }
        }
    }
}

/// A term occurs in no more documents than the index holds.
pub proof fn lemma_frequency_at_most_count(index: InvertedIndex, t: Seq<char>)
    requires
        index.wf(),
    ensures
        docs_with(index.documents@, t).len() <= index.documents@.len(),
        index.postings_of(t).len() == docs_with(index.documents@, t).len(),
{
    lemma_docs_with_bound(index.documents@, t);
    assert(entries_ok(lookup(index.postings@, t), index.documents@, t));
}

/// How often `x` occurs in `s`.
fn occurrences(s: &Vec<String>, x: &String) -> (r: usize)
    ensures
        r == count_of(s.deep_view(), x@),
{
    let ghost sv = s.deep_view();
    let mut c: usize = 0;
    let mut j: usize = 0;
    assert(sv.take(0) =~= Seq::<Seq<char>>::empty());
    while j < s.len()
        invariant
            0 <= j <= s@.len(),
            sv == s.deep_view(),
            c == count_of(sv.take(j as int), x@),
            c <= j,
        decreases s.len() - j,
    {
        proof {
            assert(sv.take(j + 1).drop_last() =~= sv.take(j as int));
            assert(sv.take(j + 1).last() == s@[j as int]@);
        }
        if s[j] == *x {
            c += 1;
        }
        j += 1;
    }
    assert(sv.take(j as int) =~= sv);
    c
}

/// Whether no term occurs more than `u32::MAX` times in `s`.
fn counts_fit_list(s: &Vec<String>) -> (r: bool)
    ensures
        r == (forall|t: Seq<char>| #[trigger] count_of(s.deep_view(), t) <= u32::MAX),
{
    let ghost sv = s.deep_view();
    if s.len() <= u32::MAX as usize {
        proof {
            assert forall|t: Seq<char>| #[trigger] count_of(sv, t) <= u32::MAX by {
                lemma_count_of_bound(sv, t);
            }
        }
        return true;
    }
    let mut i: usize = 0;
    while i < s.len()
        invariant
            0 <= i <= s@.len(),
            sv == s.deep_view(),
            forall|k: int| 0 <= k < i ==> count_of(sv, #[trigger] sv[k]) <= u32::MAX,
        decreases s.len() - i,
    {
        let c = occurrences(s, &s[i]);
        proof {
            assert(sv[i as int] == s@[i as int]@);
        }
        if c > u32::MAX as usize {
            return false;
        }
        i += 1;
    }
    proof {
        assert forall|t: Seq<char>| #[trigger] count_of(sv, t) <= u32::MAX by {
            lemma_count_of_member(sv, t);
            if count_of(sv, t) > 0 {
                let k = choose|k: int| 0 <= k < sv.len() && sv[k] == t;
                assert(count_of(sv, sv[k]) <= u32::MAX);
            }
        }
    }
    true
}

/// The terms of several texts, one text after the other.
fn flat_words(texts: &Vec<String>) -> (r: Vec<String>)
    ensures
        r.deep_view() == flat_tokens(texts.deep_view()),
{
    let ghost tv = texts.deep_view();
    let tokenizer = SimpleTokenizer;
    let mut out: Vec<String> = Vec::new();
    let mut i: usize = 0;
    assert(tv.take(0) =~= Seq::<Seq<char>>::empty());
    assert(out.deep_view() =~= Seq::<Seq<char>>::empty());
    while i < texts.len()
        invariant
            0 <= i <= texts@.len(),
            tv == texts.deep_view(),
            out.deep_view() == flat_tokens(tv.take(i as int)),
        decreases texts.len() - i,
    {
        let words = tokenizer.tokenize(texts[i].as_str());
        let ghost wv = words.deep_view();
        let ghost before = out.deep_view();
        proof {
            lemma_flat_tokens_step(tv, i as int);
            assert(tv[i as int] == texts@[i as int]@);
        }
        let mut j: usize = 0;
        assert(wv.take(0) =~= Seq::<Seq<char>>::empty());
        assert(before + wv.take(0) =~= before);
        while j < words.len()
            invariant
                0 <= j <= words@.len(),
                wv == words.deep_view(),
                out.deep_view() == before + wv.take(j as int),
            decreases words.len() - j,
        {
            let w = words[j].clone();
            let ghost prev = out.deep_view();
            out.push(w);
            proof {
                assert(out.deep_view() =~= prev.push(wv[j as int]));
                assert(wv.take(j + 1) =~= wv.take(j as int).push(wv[j as int]));
                assert(before + wv.take(j + 1) =~= (before + wv.take(j as int)).push(wv[j as int]));
            }
            j += 1;
        }
        assert(wv.take(j as int) =~= wv);
        i += 1;
    }
    assert(tv.take(i as int) =~= tv);
    out
}

/// Whether a document's counters fit in `u32`.
fn document_fits(doc: &Document) -> (r: bool)
    ensures
        r == doc_counts_fit(*doc),
{
    let tokenizer = SimpleTokenizer;
    let title = tokenizer.tokenize(doc.title.as_str());
    let body = tokenizer.tokenize(doc.body.as_str());
    let file_name = tokenizer.tokenize(doc.file_name.as_str());
    let tags = flat_words(&doc.tags);
    let headings = flat_words(&doc.headings);
    let ok_title = counts_fit_list(&title);
    let ok_body = counts_fit_list(&body);
    let ok_file = counts_fit_list(&file_name);
    let ok_tags = counts_fit_list(&tags);
    let ok_heads = counts_fit_list(&headings);
    proof {
        if !ok_title {
            let t = choose|t: Seq<char>| !(#[trigger] count_of(title.deep_view(), t) <= u32::MAX);
            assert(term_count(*doc, Field::Title, t) > u32::MAX);
        } else if !ok_body {
            let t = choose|t: Seq<char>| !(#[trigger] count_of(body.deep_view(), t) <= u32::MAX);
            assert(term_count(*doc, Field::Body, t) > u32::MAX);
        } else if !ok_file {
            let t = choose|t: Seq<char>| !(#[trigger] count_of(file_name.deep_view(), t) <= u32::MAX);
            assert(term_count(*doc, Field::FileName, t) > u32::MAX);
        } else if !ok_tags {
            let t = choose|t: Seq<char>| !(#[trigger] count_of(tags.deep_view(), t) <= u32::MAX);
            assert(term_count(*doc, Field::Tag, t) > u32::MAX);
        } else if !ok_heads {
            let t = choose|t: Seq<char>| !(#[trigger] count_of(headings.deep_view(), t) <= u32::MAX);
            assert(term_count(*doc, Field::Heading, t) > u32::MAX);
        } else {
            assert forall|t: Seq<char>, g: Field| #[trigger] term_count(*doc, g, t) <= u32::MAX by {
                assert(count_of(title.deep_view(), t) <= u32::MAX);
                assert(count_of(body.deep_view(), t) <= u32::MAX);
                assert(count_of(file_name.deep_view(), t) <= u32::MAX);
                assert(count_of(tags.deep_view(), t) <= u32::MAX);
                assert(count_of(headings.deep_view(), t) <= u32::MAX);
            }
        }
    }
    ok_title && ok_body && ok_file && ok_tags && ok_heads
}

/// Whether the documents' counters fit in `u32`, as `InvertedIndex::build`
/// requires.
pub fn counts_fit_in(documents: &[Document]) -> (r: bool)
    ensures
        r == counts_fit(documents@),
{
    let mut i: usize = 0;
    while i < documents.len()
        invariant
            0 <= i <= documents@.len(),
            forall|k: int| 0 <= k < i ==> doc_counts_fit(#[trigger] documents@[k]),
        decreases documents.len() - i,
    {
        if !document_fits(&documents[i]) {
            return false;
        }
        i += 1;
    }
    true
}

proof fn lemma_count_of_member(s: Seq<Seq<char>>, t: Seq<char>)
    ensures
        count_of(s, t) > 0 ==> exists|i: int| 0 <= i < s.len() && s[i] == t,
    decreases s.len(),
{
    if s.len() > 0 {
        lemma_count_of_member(s.drop_last(), t);
        if count_of(s.drop_last(), t) > 0 {
            let i = choose|i: int| 0 <= i < s.drop_last().len() && s.drop_last()[i] == t;
            assert(s[i] == t);
        } else if count_of(s, t) > 0 {
            assert(s[s.len() - 1] == t);
        }
    }
}

proof fn lemma_flat_tokens_are_terms(texts: Seq<Seq<char>>)
    ensures
        forall|i: int| 0 <= i < flat_tokens(texts).len() ==> is_term(#[trigger] flat_tokens(texts)[i]),
    decreases texts.len(),
{
    if texts.len() > 0 {
        lemma_flat_tokens_are_terms(texts.drop_last());
        lemma_tokens_are_terms(texts.last());
        let a = flat_tokens(texts.drop_last());
        let b = tokens(texts.last());
        assert forall|i: int| 0 <= i < flat_tokens(texts).len() implies is_term(#[trigger] flat_tokens(texts)[i]) by {
            if i < a.len() {
                assert(flat_tokens(texts)[i] == a[i]);
            } else {
                assert(flat_tokens(texts)[i] == b[i - a.len()]);
            }
        }
    }
}

/// A term that occurs in a document is a term of the tokenizer.
proof fn lemma_occurs_is_term(doc: Document, t: Seq<char>)
    requires
        occurs(doc, t),
    ensures
        is_term(t),
{
    let f = choose|f: Field| #[trigger] term_count(doc, f, t) > 0;
    lemma_count_of_member(field_terms(doc, f), t);
    let i = choose|i: int| 0 <= i < field_terms(doc, f).len() && field_terms(doc, f)[i] == t;
    match f {
        Field::Title => lemma_tokens_are_terms(doc.title@),
        Field::Tag => lemma_flat_tokens_are_terms(doc.tags.deep_view()),
        Field::Heading => lemma_flat_tokens_are_terms(doc.headings.deep_view()),
        Field::Body => lemma_tokens_are_terms(doc.body@),
        Field::FileName => lemma_tokens_are_terms(doc.file_name@),
    }
}

/// Only terms of the tokenizer have posting lists: the empty text, or a text
/// with an ASCII capital, white space or punctuation, has none
/// (`postings_for` gives `None`). A posting list names documents of the
/// index and counts at least one occurrence in each.
pub proof fn lemma_postings_are_terms(index: InvertedIndex, t: Seq<char>)
    requires
        index.wf(),
    ensures
        docs_with(index.documents@, t).len() > 0 ==> is_term(t),
        !is_term(t) ==> index.postings_of(t).len() == 0,
        forall|i: int| 0 <= i < index.postings_of(t).len() ==> (#[trigger] index.postings_of(t)[i]).0 < index.documents@.len()
            && stats_total(index.postings_of(t)[i].1) >= 1,
{
    let docs = index.documents@;
    let p = index.postings_of(t);
    assert(entries_ok(lookup(index.postings@, t), docs, t));
    lemma_docs_with_bound(docs, t);
    if docs_with(docs, t).len() > 0 {
        let d = docs_with(docs, t)[0];
        crate::search::ranker::lemma_docs_with_contains(docs, t, d);
        assert(docs_with(docs, t).contains(d));
        lemma_occurs_is_term(docs[d], t);
    }
    assert forall|i: int| 0 <= i < p.len() implies (#[trigger] p[i]).0 < docs.len() && stats_total(p[i].1) >= 1 by {
        let d = docs_with(docs, t)[i];
        assert(p[i].0 as int == d);
        crate::search::ranker::lemma_docs_with_contains(docs, t, d);
        assert(docs_with(docs, t).contains(d));
        let f = choose|f: Field| #[trigger] term_count(docs[d], f, t) > 0;
        assert(stats_match(p[i].1, docs[d], t));
        assert(field_value(p[i].1, f) == term_count(docs[d], f, t));
    }
}

} // verus!
