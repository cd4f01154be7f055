//! Context snippets around the first query term, and highlighting of query
//! terms in a text. Positions are byte offsets, as in `str`; the lower-cased
//! text is searched and the text as given is cut and marked.
use vstd::prelude::*;

use crate::text::{
    chars_eq, chars_start_with, rows, sub_chars,
    blen, byte_len, byte_offsets, chars_of, is_ascii_alnum, ascii_alnum, lemma_blen_append, lemma_blen_take_mono,
    lowercase, starts_with, string_of, to_lowercase, trim, trim_chars,
};

verus! {

/// The character position whose byte offset in `s` is `b`, if any.
pub open spec fn offset_index(s: Seq<char>, b: int) -> Option<int> {
    if exists|j: int| 0 <= j <= s.len() && blen(s.take(j)) == b {
        Some(choose|j: int| 0 <= j <= s.len() && blen(s.take(j)) == b)
    } else {
        None
    }
}

pub proof fn lemma_offset_index(s: Seq<char>, j: int)
    requires
        0 <= j <= s.len(),
    ensures
        offset_index(s, blen(s.take(j)) as int) == Some(j),
{
    let b = blen(s.take(j)) as int;
    let k = choose|k: int| 0 <= k <= s.len() && blen(s.take(k)) == b;
    if k < j {
        lemma_blen_take_mono(s, k, j);
    } else if k > j {
        lemma_blen_take_mono(s, j, k);
    }
}

/// A term that is all ASCII letters and digits only matches whole words.
pub open spec fn all_ascii_alnum(t: Seq<char>) -> bool {
    forall|i: int| 0 <= i < t.len() ==> is_ascii_alnum(#[trigger] t[i])
}

pub open spec fn word_ok(text: Seq<char>, p: int, q: int, term: Seq<char>) -> bool {
    all_ascii_alnum(term) ==> !(p > 0 && is_ascii_alnum(text[p - 1])) && !(q < text.len() && is_ascii_alnum(text[q]))
}

/// Where a match of `term` at character `p` of `text` ends, if it matches:
/// the lower-cased text holds `term` at the byte offset of `p`, the end is
/// on a character boundary of `text`, and ASCII words match whole.
pub open spec fn term_end(text: Seq<char>, lower: Seq<char>, p: int, term: Seq<char>) -> Option<int> {
    let b = blen(text.take(p)) as int;
    match offset_index(text, b + blen(term)) {
        Some(q) => match offset_index(lower, b) {
            Some(j) => if starts_with(lower.skip(j), term) && word_ok(text, p, q, term) {
                Some(q)
            } else {
                None
            },
            None => None,
        },
        None => None,
    }
}

/// The end of the match of the first term that matches at `p`.
pub open spec fn first_end(text: Seq<char>, lower: Seq<char>, terms: Seq<Seq<char>>, p: int) -> Option<int>
    decreases terms.len(),
{
    if terms.len() == 0 {
        None
    } else {
        match term_end(text, lower, p, terms[0]) {
            Some(q) => Some(q),
            None => first_end(text, lower, terms.drop_first(), p),
        }
    }
}

/// The text from character `p` on, with every match wrapped in `open` and
/// `close`; scanning resumes after a match.
pub open spec fn marked_from(text: Seq<char>, lower: Seq<char>, terms: Seq<Seq<char>>, open: Seq<char>, close: Seq<char>, p: int) -> Seq<char>
    decreases text.len() - p,
{
    if !(0 <= p < text.len()) {
        Seq::empty()
    } else {
        match first_end(text, lower, terms, p) {
            Some(q) => if p < q <= text.len() {
                open + text.subrange(p, q) + close + marked_from(text, lower, terms, open, close, q)
            } else {
                seq![text[p]] + marked_from(text, lower, terms, open, close, p + 1)
            },
            None => seq![text[p]] + marked_from(text, lower, terms, open, close, p + 1),
        }
    }
}

/// A query term trimmed and lower-cased.
pub open spec fn norm_one(t: Seq<char>) -> Seq<char> {
    lowercase(trim(t))
}

pub open spec fn nonempty_norm(ts: Seq<Seq<char>>) -> Seq<Seq<char>>
    decreases ts.len(),
{
    if ts.len() == 0 {
        Seq::empty()
    } else {
        nonempty_norm(ts.drop_last()) + (if norm_one(ts.last()).len() > 0 {
            seq![norm_one(ts.last())]
        } else {
            Seq::empty()
        })
    }
}

/// How many leading items of `sorted` are at least as long (in bytes) as `x`.
pub open spec fn count_not_shorter(sorted: Seq<Seq<char>>, x: Seq<char>) -> nat
    decreases sorted.len(),
{
    if sorted.len() > 0 && blen(sorted[0]) >= blen(x) {
        1 + count_not_shorter(sorted.drop_first(), x)
    } else {
        0
    }
}

/// Stable sort by byte length, longest first.
pub open spec fn sort_by_len(v: Seq<Seq<char>>) -> Seq<Seq<char>>
    decreases v.len(),
{
    if v.len() == 0 {
        Seq::empty()
    } else {
        let s = sort_by_len(v.drop_last());
        s.insert(count_not_shorter(s, v.last()) as int, v.last())
    }
}

/// Removes repeats that follow each other (`Vec::dedup`).
pub open spec fn dedup(v: Seq<Seq<char>>) -> Seq<Seq<char>>
    decreases v.len(),
{
    if v.len() <= 1 {
        v
    } else if v.last() == v[v.len() - 2] {
        dedup(v.drop_last())
    } else {
        dedup(v.drop_last()).push(v.last())
    }
}

/// The terms as the highlighter tries them: trimmed, lower-cased, without
/// empty ones, longest first, without repeats that follow each other.
pub open spec fn normalized(ts: Seq<Seq<char>>) -> Seq<Seq<char>> {
    dedup(sort_by_len(nonempty_norm(ts)))
}

/// `text` with the matches of `terms` wrapped in `open` and `close`.
pub open spec fn highlighted(text: Seq<char>, terms: Seq<Seq<char>>, open: Seq<char>, close: Seq<char>) -> Seq<char> {
    if normalized(terms).len() == 0 {
        text
    } else {
        marked_from(text, lowercase(text), normalized(terms), open, close, 0)
    }
}

/// Position of the first occurrence of `needle` in `hay` at or after `j`.
pub open spec fn find_from(hay: Seq<char>, needle: Seq<char>, j: int) -> Option<int>
    decreases hay.len() + 1 - j,
{
    if !(0 <= j && j + needle.len() <= hay.len()) {
        None
    } else if hay.subrange(j, j + needle.len()) == needle {
        Some(j)
    } else {
        find_from(hay, needle, j + 1)
    }
}

/// Byte position and byte length of the earliest match among the terms in
/// the lower-cased text; the first term wins a tie.
pub open spec fn best_match(lower: Seq<char>, terms: Seq<Seq<char>>) -> Option<(nat, nat)>
    decreases terms.len(),
{
    if terms.len() == 0 {
        None
    } else {
        let prev = best_match(lower, terms.drop_last());
        match find_from(lower, terms.last(), 0) {
            Some(j) => {
                let here = (blen(lower.take(j)), blen(terms.last()));
                match prev {
                    Some(p) => if here.0 < p.0 {
                        Some(here)
                    } else {
                        prev
                    },
                    None => Some(here),
                }
            },
            None => prev,
        }
    }
}

/// The last character position whose byte offset is at most `b`, searching
/// down from `j`.
pub open spec fn floor_from(text: Seq<char>, b: int, j: int) -> int
    decreases j,
{
    if j <= 0 {
        0
    } else if blen(text.take(j)) <= b {
        j
    } else {
        floor_from(text, b, j - 1)
    }
}

/// The first character position from `j` whose byte offset is at least `b`,
/// or the end.
pub open spec fn ceil_from(text: Seq<char>, b: int, j: int) -> int
    decreases text.len() - j,
{
    if j >= text.len() {
        text.len() as int
    } else if blen(text.take(j)) >= b {
        j
    } else {
        ceil_from(text, b, j + 1)
    }
}

pub open spec fn ellipsis() -> Seq<char> {
    seq!['.', '.', '.']
}

/// The snippet of `text` around the earliest query term.
pub open spec fn snippet(text: Seq<char>, terms: Seq<Seq<char>>, radius: nat) -> Seq<char> {
    match best_match(lowercase(text), terms) {
        None => text.take(if 2 * radius < text.len() { 2 * radius as int } else { text.len() as int }),
        Some((pos, len)) => {
            let lo: int = if pos >= radius { pos - radius } else { 0 };
            let hi = if pos + len + radius < blen(text) { (pos + len + radius) as int } else { blen(text) as int };
            let j1 = floor_from(text, lo, text.len() as int);
            let j2 = ceil_from(text, hi, 0);
            (if j1 > 0 { ellipsis() } else { Seq::empty() }) + (if j1 <= j2 { text.subrange(j1, j2) } else { Seq::empty() })
                + (if j2 < text.len() { ellipsis() } else { Seq::empty() })
        },
    }
}


/// Character position of byte offset `b`, given the byte offsets of `s`.
fn find_offset(offsets: &Vec<usize>, b: usize, Ghost(s): Ghost<Seq<char>>) -> (r: Option<usize>)
    requires
        offsets@.len() == s.len() + 1,
        forall|i: int| 0 <= i <= s.len() ==> #[trigger] offsets@[i] == blen(s.take(i)),
    ensures
        r matches Some(j) ==> j <= s.len() && offset_index(s, b as int) == Some(j as int),
        r is None ==> offset_index(s, b as int) is None,
{
    let mut j: usize = 0;
    while j < offsets.len()
        invariant
            offsets@.len() == s.len() + 1,
            forall|i: int| 0 <= i <= s.len() ==> #[trigger] offsets@[i] == blen(s.take(i)),
            0 <= j <= offsets@.len(),
            forall|i: int| 0 <= i < j ==> blen(s.take(i)) != b,
        decreases offsets.len() - j,
    {
        if offsets[j] == b {
            proof {
                lemma_offset_index(s, j as int);
            }
            return Some(j);
        }
        j += 1;
    }
    proof {
        if exists|k: int| 0 <= k <= s.len() && blen(s.take(k)) == b {
            let k = choose|k: int| 0 <= k <= s.len() && blen(s.take(k)) == b;
            assert(offsets@[k] == blen(s.take(k)));
        }
    }
    None
}

fn all_ascii_alnum_chars(t: &[char]) -> (r: bool)
    ensures
        r == all_ascii_alnum(t@),
{
    let mut i: usize = 0;
    while i < t.len()
        invariant
            0 <= i <= t@.len(),
            forall|k: int| 0 <= k < i ==> is_ascii_alnum(#[trigger] t@[k]),
        decreases t.len() - i,
    {
        if !ascii_alnum(t[i]) {
            return false;
        }
        i += 1;
    }
    true
}

/// The text, its lower-cased form, and the byte offsets of both.
struct Scanned {
    text: Vec<char>,
    text_offsets: Vec<usize>,
    lower: Vec<char>,
    lower_offsets: Vec<usize>,
}

impl Scanned {
    spec fn wf(&self) -> bool {
        &&& self.text_offsets@.len() == self.text@.len() + 1
        &&& forall|i: int| 0 <= i <= self.text@.len() ==> #[trigger] self.text_offsets@[i] == blen(self.text@.take(i))
        &&& self.lower_offsets@.len() == self.lower@.len() + 1
        &&& forall|i: int| 0 <= i <= self.lower@.len() ==> #[trigger] self.lower_offsets@[i] == blen(self.lower@.take(i))
        &&& blen(self.text@) <= usize::MAX
    }

    fn new(text: &str) -> (r: Self)
        ensures
            r.wf(),
            r.text@ == text@,
            r.lower@ == lowercase(text@),
    {
        let lower_string = to_lowercase(text);
        let lower = chars_of(lower_string.as_str());
        let lower_len = byte_len(lower_string.as_str());
        let tc = chars_of(text);
        let text_len = byte_len(text);
        let text_offsets = byte_offsets(tc.as_slice());
        let lower_offsets = byte_offsets(lower.as_slice());
        Scanned { text: tc, text_offsets, lower, lower_offsets }
    }

    /// End of the match of `term` (of `term_len` bytes) at character `p`.
    fn term_at(&self, p: usize, term: &Vec<char>, term_len: usize) -> (r: Option<usize>)
        requires
            self.wf(),
            p <= self.text@.len(),
            term_len == blen(term@),
        ensures
            r matches Some(q) ==> q <= self.text@.len() && term_end(self.text@, self.lower@, p as int, term@) == Some(q as int),
            r is None ==> term_end(self.text@, self.lower@, p as int, term@) is None,
    {
        let b = self.text_offsets[p];
        let e = match b.checked_add(term_len) {
            Some(e) => e,
            None => {
                proof {
                    let t = self.text@;
                    if exists|j: int| 0 <= j <= t.len() && blen(t.take(j)) == b + term_len {
                        let j = choose|j: int| 0 <= j <= t.len() && blen(t.take(j)) == b + term_len;
                        lemma_blen_take_mono(t, j, j);
                    }
                }
                return None;
            },
        };
        let q = match find_offset(&self.text_offsets, e, Ghost(self.text@)) {
            Some(q) => q,
            None => {
                return None;
            },
        };
        let j = match find_offset(&self.lower_offsets, b, Ghost(self.lower@)) {
            Some(j) => j,
            None => {
                return None;
            },
        };
        let rest = vstd::slice::slice_subrange(self.lower.as_slice(), j, self.lower.len());
        assert(rest@ =~= self.lower@.skip(j as int));
        if !chars_start_with(rest, term.as_slice()) {
            return None;
        }
        if all_ascii_alnum_chars(term.as_slice()) {
            if p > 0 && ascii_alnum(self.text[p - 1]) {
                return None;
            }
            if q < self.text.len() && ascii_alnum(self.text[q]) {
                return None;
            }
        }
        Some(q)
    }

    /// End of the match of the first term that matches at `p`.
    fn first_term_end(&self, p: usize, terms: &Vec<Vec<char>>, lens: &Vec<usize>) -> (r: Option<usize>)
        requires
            self.wf(),
            p <= self.text@.len(),
            terms@.len() == lens@.len(),
            forall|i: int| 0 <= i < terms@.len() ==> #[trigger] lens@[i] == blen(terms@[i]@),
        ensures
            r matches Some(q) ==> q <= self.text@.len() && first_end(self.text@, self.lower@, rows(terms@), p as int) == Some(q as int),
            r is None ==> first_end(self.text@, self.lower@, rows(terms@), p as int) is None,
    {
        let ghost all = rows(terms@);
        let mut k: usize = 0;
        assert(all.skip(0) =~= all);
        while k < terms.len()
            invariant
                self.wf(),
                p <= self.text@.len(),
                terms@.len() == lens@.len(),
                forall|i: int| 0 <= i < terms@.len() ==> #[trigger] lens@[i] == blen(terms@[i]@),
                all == rows(terms@),
                0 <= k <= terms@.len(),
                first_end(self.text@, self.lower@, all, p as int) == first_end(self.text@, self.lower@, all.skip(k as int), p as int),
            decreases terms.len() - k,
        {
            assert(all.skip(k as int)[0] == terms@[k as int]@);
            assert(all.skip(k as int).drop_first() =~= all.skip(k + 1));
            match self.term_at(p, &terms[k], lens[k]) {
                Some(q) => {
                    return Some(q);
                },
                None => {},
            }
            k += 1;
        }
        assert(all.skip(k as int) =~= Seq::<Seq<char>>::empty());
        None
    }
}

/// Appends `cs` to `out`.
fn append(out: &mut Vec<char>, cs: &[char])
    ensures
        final(out)@ == old(out)@ + cs@,
{
    let mut i: usize = 0;
    let ghost start = out@;
    while i < cs.len()
        invariant
            0 <= i <= cs@.len(),
            out@ == start + cs@.take(i as int),
        decreases cs.len() - i,
    {
        out.push(cs[i]);
        assert(cs@.take(i + 1) =~= cs@.take(i as int).push(cs@[i as int]));
        i += 1;
    }
    assert(cs@.take(i as int) =~= cs@);
}

/// The query terms in the order the highlighter tries them, with their
/// byte lengths.
fn normalized_terms(terms: &[String]) -> (r: (Vec<Vec<char>>, Vec<usize>))
    ensures
        rows(r.0@) == normalized(terms.deep_view()),
        r.0@.len() == r.1@.len(),
        forall|i: int| 0 <= i < r.0@.len() ==> #[trigger] r.1@[i] == blen(r.0@[i]@),
{
    let ghost tv = terms.deep_view();
    // Trimmed, lower-cased, non-empty.
    let mut items: Vec<Vec<char>> = Vec::new();
    let mut lens: Vec<usize> = Vec::new();
    let mut i: usize = 0;
    assert(tv.take(0) =~= Seq::<Seq<char>>::empty());
    assert(rows(items@) =~= Seq::<Seq<char>>::empty());
    while i < terms.len()
        invariant
            0 <= i <= terms@.len(),
            tv == terms.deep_view(),
            rows(items@) == nonempty_norm(tv.take(i as int)),
            items@.len() == lens@.len(),
            forall|k: int| 0 <= k < items@.len() ==> #[trigger] lens@[k] == blen(items@[k]@),
        decreases terms.len() - i,
    {
        assert(tv.take(i + 1).drop_last() =~= tv.take(i as int));
        assert(tv.take(i + 1).last() == terms@[i as int]@);
        let cs = chars_of(terms[i].as_str());
        let trimmed = string_of(trim_chars(cs.as_slice()).as_slice());
        let lowered = to_lowercase(trimmed.as_str());
        let lc = chars_of(lowered.as_str());
        if lc.len() > 0 {
            let n = byte_len(lowered.as_str());
            let ghost before = rows(items@);
            items.push(lc);
            lens.push(n);
            assert(rows(items@) =~= before.push(lc@));
        } else {
            assert(rows(items@) =~= rows(items@) + Seq::<Seq<char>>::empty());
        }
        i += 1;
    }
    assert(tv.take(i as int) =~= tv);
    let ghost v1 = rows(items@);
    // Stable sort, longest first.
    let mut sorted: Vec<Vec<char>> = Vec::new();
    let mut sorted_lens: Vec<usize> = Vec::new();
    let mut m: usize = 0;
    assert(v1.take(0) =~= Seq::<Seq<char>>::empty());
    assert(rows(sorted@) =~= Seq::<Seq<char>>::empty());
    while m < items.len()
        invariant
            0 <= m <= items@.len(),
            v1 == rows(items@),
            items@.len() == lens@.len(),
            forall|k: int| 0 <= k < items@.len() ==> #[trigger] lens@[k] == blen(items@[k]@),
            rows(sorted@) == sort_by_len(v1.take(m as int)),
            sorted@.len() == sorted_lens@.len(),
            forall|k: int| 0 <= k < sorted@.len() ==> #[trigger] sorted_lens@[k] == blen(sorted@[k]@),
        decreases items.len() - m,
    {
        let ghost s0 = rows(sorted@);
        assert(v1.take(m + 1).drop_last() =~= v1.take(m as int));
        assert(v1.take(m + 1).last() == items@[m as int]@);
        let len = lens[m];
        let mut k: usize = 0;
        assert(s0.skip(0) =~= s0);
        while k < sorted.len() && sorted_lens[k] >= len
            invariant
                0 <= k <= sorted@.len(),
                s0 == rows(sorted@),
                sorted@.len() == sorted_lens@.len(),
                forall|t: int| 0 <= t < sorted@.len() ==> #[trigger] sorted_lens@[t] == blen(sorted@[t]@),
                len == blen(items@[m as int]@),
                count_not_shorter(s0, items@[m as int]@) == k + count_not_shorter(s0.skip(k as int), items@[m as int]@),
            decreases sorted.len() - k,
        {
            assert(s0.skip(k as int)[0] == sorted@[k as int]@);
            assert(s0.skip(k as int).drop_first() =~= s0.skip(k + 1));
            k += 1;
        }
        proof {
            if k < sorted@.len() {
                assert(s0.skip(k as int)[0] == sorted@[k as int]@);
            }
        }
        let item = items[m].clone();
        assert(item@ == items@[m as int]@);
        sorted.insert(k, item);
        sorted_lens.insert(k, len);
        assert(rows(sorted@) =~= s0.insert(k as int, items@[m as int]@));
        proof {
            assert forall|t: int| 0 <= t < sorted@.len() implies #[trigger] sorted_lens@[t] == blen(sorted@[t]@) by {
                if t < k {
                } else if t == k {
                } else {
                }
            }
        }
        m += 1;
    }
    assert(v1.take(m as int) =~= v1);
    let ghost v2 = rows(sorted@);
    // Drop repeats that follow each other.
    let mut out: Vec<Vec<char>> = Vec::new();
    let mut out_lens: Vec<usize> = Vec::new();
    let mut d: usize = 0;
    assert(v2.take(0) =~= Seq::<Seq<char>>::empty());
    assert(rows(out@) =~= Seq::<Seq<char>>::empty());
    while d < sorted.len()
        invariant
            0 <= d <= sorted@.len(),
            v2 == rows(sorted@),
            sorted@.len() == sorted_lens@.len(),
            forall|k: int| 0 <= k < sorted@.len() ==> #[trigger] sorted_lens@[k] == blen(sorted@[k]@),
            rows(out@) == dedup(v2.take(d as int)),
            out@.len() == out_lens@.len(),
            forall|k: int| 0 <= k < out@.len() ==> #[trigger] out_lens@[k] == blen(out@[k]@),
        decreases sorted.len() - d,
    {
        let ghost before = rows(out@);
        assert(v2.take(d + 1).drop_last() =~= v2.take(d as int));
        assert(v2.take(d + 1).last() == sorted@[d as int]@);
        if d > 0 && chars_eq(sorted[d].as_slice(), sorted[d - 1].as_slice()) {
            assert(v2.take(d + 1)[d - 1] == sorted@[d - 1]@);
        } else {
            proof {
                if d > 0 {
                    assert(v2.take(d + 1)[d - 1] == sorted@[d - 1]@);
                } else {
                    assert(v2.take(1) =~= seq![sorted@[0]@]);
                    assert(v2.take(0) =~= Seq::<Seq<char>>::empty());
                }
            }
            let item = sorted[d].clone();
            assert(item@ == sorted@[d as int]@);
            out.push(item);
            out_lens.push(sorted_lens[d]);
            assert(rows(out@) =~= before.push(sorted@[d as int]@));
        }
        d += 1;
    }
    assert(v2.take(d as int) =~= v2);
    (out, out_lens)
}

/// `text` with the matches of `terms` wrapped in `open` and `close`. Longer
/// terms are tried first so that phrases are not split; a term of ASCII
/// letters and digits only matches a whole word.
fn highlight(text: &str, terms: &[String], open: &str, close: &str) -> (r: String)
    ensures
        r@ == highlighted(text@, terms.deep_view(), open@, close@),
{
    let (nt, lens) = normalized_terms(terms);
    if nt.len() == 0 {
        return text.to_owned();
    }
    let sc = Scanned::new(text);
    let oc = chars_of(open);
    let cc = chars_of(close);
    let ghost t = sc.text@;
    let ghost l = sc.lower@;
    let ghost ts = rows(nt@);
    let mut output: Vec<char> = Vec::new();
    let mut position: usize = 0;
    while position < sc.text.len()
        invariant
            sc.wf(),
            t == sc.text@,
            l == sc.lower@,
            ts == rows(nt@),
            nt@.len() == lens@.len(),
            forall|i: int| 0 <= i < nt@.len() ==> #[trigger] lens@[i] == blen(nt@[i]@),
            0 <= position <= t.len(),
            marked_from(t, l, ts, oc@, cc@, 0) == output@ + marked_from(t, l, ts, oc@, cc@, position as int),
        decreases t.len() - position,
    {
        let ghost before = output@;
        match sc.first_term_end(position, &nt, &lens) {
            Some(q) => {
                if position < q {
                    append(&mut output, oc.as_slice());
                    let piece = sub_chars(sc.text.as_slice(), position, q);
                    append(&mut output, piece.as_slice());
                    append(&mut output, cc.as_slice());
                    assert(output@ =~= before + (oc@ + t.subrange(position as int, q as int) + cc@));
                    position = q;
                } else {
                    output.push(sc.text[position]);
                    assert(output@ =~= before + seq![t[position as int]]);
                    position += 1;
                }
            },
            None => {
                output.push(sc.text[position]);
                assert(output@ =~= before + seq![t[position as int]]);
                position += 1;
            },
        }
    }
    string_of(output.as_slice())
}

/// `text` with query terms in bold yellow for a terminal.
pub fn highlight_with_ansi(text: &str, terms: &[String]) -> (r: String)
    ensures
        r@ == highlighted(text@, terms.deep_view(), "\x1b[1;33m"@, "\x1b[0m"@),
{
    highlight(text, terms, "\x1b[1;33m", "\x1b[0m")
}

/// `text` with query terms in `<mark>` elements.
pub fn highlight_with_marks(text: &str, terms: &[String]) -> (r: String)
    ensures
        r@ == highlighted(text@, terms.deep_view(), "<mark>"@, "</mark>"@),
{
    highlight(text, terms, "<mark>", "</mark>")
}


pub proof fn lemma_find_from(hay: Seq<char>, needle: Seq<char>, j: int)
    ensures
        find_from(hay, needle, j) matches Some(k) ==> j <= k && k + needle.len() <= hay.len() && hay.subrange(k, k + needle.len()) == needle,
    decreases hay.len() + 1 - j,
{
    if 0 <= j && j + needle.len() <= hay.len() && hay.subrange(j, j + needle.len()) != needle {
        lemma_find_from(hay, needle, j + 1);
    }
}

/// A search from `j` finds an occurrence that starts at `k >= j`, or an
/// earlier one.
pub proof fn lemma_find_from_finds(hay: Seq<char>, needle: Seq<char>, j: int, k: int)
    requires
        0 <= j <= k,
        k + needle.len() <= hay.len(),
        hay.subrange(k, k + needle.len()) == needle,
    ensures
        find_from(hay, needle, j) matches Some(x) && j <= x <= k,
    decreases k - j,
{
    if hay.subrange(j, j + needle.len()) != needle {
        lemma_find_from_finds(hay, needle, j + 1, k);
    }
}

/// First position of `needle` in `hay` at or after `from` (`str::find`,
/// counted in characters).
pub fn find_chars_from(hay: &[char], needle: &[char], from: usize) -> (r: Option<usize>)
    ensures
        r matches Some(j) ==> find_from(hay@, needle@, from as int) == Some(j as int) && from <= j && j + needle@.len() <= hay@.len(),
        r is None ==> find_from(hay@, needle@, from as int) is None,
{
    if needle.len() > hay.len() || from > hay.len() - needle.len() {
        return None;
    }
    let hl = hay.len();
    let last = hl - needle.len();
    let mut j: usize = from;
    loop
        invariant
            hl == hay@.len(),
            last == hay@.len() - needle@.len(),
            needle@.len() <= hay@.len(),
            from <= j <= last,
            find_from(hay@, needle@, from as int) == find_from(hay@, needle@, j as int),
        decreases last - j,
    {
        let window = vstd::slice::slice_subrange(hay, j, j + needle.len());
        if chars_eq(window, needle) {
            return Some(j);
        }
        assert(hay@.subrange(j as int, j + needle@.len()) != needle@);
        assert(find_from(hay@, needle@, j as int) == find_from(hay@, needle@, j + 1));
        if j == last {
            assert(find_from(hay@, needle@, j + 1) is None);
            return None;
        }
        j += 1;
    }
}

/// First position of `needle` in `hay`.
pub fn find_chars(hay: &[char], needle: &[char]) -> (r: Option<usize>)
    ensures
        r matches Some(j) ==> find_from(hay@, needle@, 0) == Some(j as int) && j + needle@.len() <= hay@.len(),
        r is None ==> find_from(hay@, needle@, 0) is None,
{
    find_chars_from(hay, needle, 0)
}

/// A context snippet of `text` around the earliest occurrence of a query
/// term (in the lower-cased text): up to `radius` bytes on each side, cut
/// at character boundaries, with `...` where text was left out. Without
/// any occurrence, the first `2 * radius` characters.
pub fn make_snippet(text: &str, terms: &[String], radius: usize) -> (r: String)
    requires
        radius <= usize::MAX / 2,
    ensures
        r@ == snippet(text@, terms.deep_view(), radius as nat),
{
    let sc = Scanned::new(text);
    let ghost tv = terms.deep_view();
    let ghost l = sc.lower@;
    let mut best: Option<(usize, usize)> = None;
    let mut i: usize = 0;
    assert(tv.take(0) =~= Seq::<Seq<char>>::empty());
    while i < terms.len()
        invariant
            sc.wf(),
            l == sc.lower@,
            l == lowercase(text@),
            tv == terms.deep_view(),
            0 <= i <= terms@.len(),
            best_match(l, tv.take(i as int)) == (match best {
                Some((p, n)) => Some((p as nat, n as nat)),
                None => None,
            }),
        decreases terms.len() - i,
    {
        assert(tv.take(i + 1).drop_last() =~= tv.take(i as int));
        assert(tv.take(i + 1).last() == terms@[i as int]@);
        let tc = chars_of(terms[i].as_str());
        match find_chars(sc.lower.as_slice(), tc.as_slice()) {
            Some(j) => {
                let here = (sc.lower_offsets[j], byte_len(terms[i].as_str()));
                match best {
                    Some(b) => {
                        if here.0 < b.0 {
                            best = Some(here);
                        }
                    },
                    None => {
                        best = Some(here);
                    },
                }
            },
            None => {},
        }
        i += 1;
    }
    assert(tv.take(i as int) =~= tv);
    let n = sc.text.len();
    match best {
        None => {
            let count = if 2 * radius < n { 2 * radius } else { n };
            let head = sub_chars(sc.text.as_slice(), 0, count);
            assert(head@ =~= sc.text@.take(count as int));
            string_of(head.as_slice())
        },
        Some((pos, len)) => {
            let total = sc.text_offsets[n];
            assert(sc.text@.take(n as int) =~= sc.text@);
            let lo = if pos >= radius { pos - radius } else { 0 };
            let hi = match pos.checked_add(len) {
                Some(a) => match a.checked_add(radius) {
                    Some(b) => if b < total { b } else { total },
                    None => total,
                },
                None => total,
            };
            let ghost t = sc.text@;
            let mut j1 = n;
            while j1 > 0 && sc.text_offsets[j1] > lo
                invariant
                    sc.wf(),
                    t == sc.text@,
                    n == t.len(),
                    0 <= j1 <= n,
                    floor_from(t, lo as int, n as int) == floor_from(t, lo as int, j1 as int),
                decreases j1,
            {
                j1 -= 1;
            }
            let mut j2: usize = 0;
            while j2 < n && sc.text_offsets[j2] < hi
                invariant
                    sc.wf(),
                    t == sc.text@,
                    n == t.len(),
                    0 <= j2 <= n,
                    ceil_from(t, hi as int, 0) == ceil_from(t, hi as int, j2 as int),
                decreases n - j2,
            {
                j2 += 1;
            }
            let mut out: Vec<char> = Vec::new();
            let dots: Vec<char> = vec!['.', '.', '.'];
            assert(dots@ =~= ellipsis());
            if j1 > 0 {
                append(&mut out, dots.as_slice());
            }
            let ghost a = out@;
            if j1 <= j2 {
                let piece = sub_chars(sc.text.as_slice(), j1, j2);
                append(&mut out, piece.as_slice());
            } else {
                assert(out@ =~= a + Seq::<char>::empty());
            }
            let ghost b = out@;
            if j2 < n {
                append(&mut out, dots.as_slice());
            } else {
                assert(out@ =~= b + Seq::<char>::empty());
            }
            proof {
                assert(blen(t) == total);
                let lo_i: int = if pos >= radius { pos - radius } else { 0 };
                assert(lo as int == lo_i);
                let hi_i: int = if pos + len + radius < blen(t) { (pos + len + radius) as int } else { blen(t) as int };
                assert(hi as int == hi_i);
                assert(j1 > 0 ==> a == ellipsis());
                assert(j1 == 0 ==> a =~= Seq::<char>::empty());
                assert(out@ =~= (if j1 > 0 { ellipsis() } else { Seq::empty() }) + (if j1 <= j2 { t.subrange(j1 as int, j2 as int) } else { Seq::empty() })
                    + (if j2 < t.len() { ellipsis() } else { Seq::empty() }));
            }
            string_of(out.as_slice())
        },
    }
}

proof fn lemma_marked_from_plain(text: Seq<char>, lower: Seq<char>, terms: Seq<Seq<char>>, p: int)
    requires
        0 <= p <= text.len(),
    ensures
        marked_from(text, lower, terms, Seq::empty(), Seq::empty(), p) == text.skip(p),
    decreases text.len() - p,
{
    if p < text.len() {
        match first_end(text, lower, terms, p) {
            Some(q) => if p < q <= text.len() {
                lemma_marked_from_plain(text, lower, terms, q);
                assert(Seq::<char>::empty() + text.subrange(p, q) + Seq::<char>::empty() + text.skip(q) =~= text.skip(p));
            } else {
                lemma_marked_from_plain(text, lower, terms, p + 1);
                assert(seq![text[p]] + text.skip(p + 1) =~= text.skip(p));
            },
            None => {
                lemma_marked_from_plain(text, lower, terms, p + 1);
                assert(seq![text[p]] + text.skip(p + 1) =~= text.skip(p));
            },
        }
    } else {
        assert(text.skip(p) =~= Seq::<char>::empty());
    }
}

/// Highlighting changes nothing but the marks: with empty marks the text
/// comes back as it was.
pub proof fn lemma_highlight_keeps_text(text: Seq<char>, terms: Seq<Seq<char>>)
    ensures
        highlighted(text, terms, Seq::empty(), Seq::empty()) == text,
{
    lemma_marked_from_plain(text, lowercase(text), normalized(terms), 0);
    assert(text.skip(0) =~= text);
}

proof fn lemma_first_end_word(text: Seq<char>, lower: Seq<char>, terms: Seq<Seq<char>>, p: int)
    requires
        forall|i: int| 0 <= i < terms.len() ==> all_ascii_alnum(#[trigger] terms[i]),
    ensures
        first_end(text, lower, terms, p) matches Some(q) ==> 0 <= q <= text.len()
            && (p <= 0 || !is_ascii_alnum(text[p - 1])) && (q >= text.len() || !is_ascii_alnum(text[q])),
    decreases terms.len(),
{
    if terms.len() > 0 {
        let t = terms[0];
        assert(all_ascii_alnum(t));
        match term_end(text, lower, p, t) {
            Some(q) => {
                let b = blen(text.take(p)) as int;
                assert(offset_index(text, b + blen(t)) == Some(q));
                assert(word_ok(text, p, q, t));
            },
            None => {
                assert forall|i: int| 0 <= i < terms.drop_first().len() implies all_ascii_alnum(#[trigger] terms.drop_first()[i]) by {
                    assert(terms.drop_first()[i] == terms[i + 1]);
                }
                lemma_first_end_word(text, lower, terms.drop_first(), p);
            },
        }
    }
}

/// Terms made only of ASCII letters and digits are marked as whole words:
/// at each position the marked text either copies the character, or opens
/// a mark over `text[p..q]` where neither the character before `p` nor the
/// one at `q` is an ASCII letter or digit.
pub proof fn lemma_marks_whole_words(text: Seq<char>, lower: Seq<char>, terms: Seq<Seq<char>>, open: Seq<char>, close: Seq<char>, p: int)
    requires
        0 <= p < text.len(),
        forall|i: int| 0 <= i < terms.len() ==> all_ascii_alnum(#[trigger] terms[i]),
    ensures
        marked_from(text, lower, terms, open, close, p) == seq![text[p]] + marked_from(text, lower, terms, open, close, p + 1)
            || exists|q: int|
                p < q <= text.len() && (p == 0 || !is_ascii_alnum(text[p - 1])) && (q == text.len() || !is_ascii_alnum(#[trigger] text[q]))
                    && marked_from(text, lower, terms, open, close, p) == open + text.subrange(p, q) + close + marked_from(text, lower, terms, open, close, q),
{
    lemma_first_end_word(text, lower, terms, p);
    match first_end(text, lower, terms, p) {
        Some(q) => {
            if p < q <= text.len() {
                if q < text.len() {
                    assert(!is_ascii_alnum(text[q]));
                }
            }
        },
        None => {},
    }
}

proof fn lemma_floor_from_same(t1: Seq<char>, t2: Seq<char>, b: int, j: int)
    requires
        j <= t1.len(),
        t1.len() == t2.len(),
        forall|k: int| 0 <= k <= t1.len() ==> blen(#[trigger] t1.take(k)) == blen(t2.take(k)),
    ensures
        floor_from(t1, b, j) == floor_from(t2, b, j),
        0 <= floor_from(t1, b, j),
        j >= 0 ==> floor_from(t1, b, j) <= j,
    decreases j,
{
    if j > 0 {
        assert(blen(t1.take(j)) == blen(t2.take(j)));
        lemma_floor_from_same(t1, t2, b, j - 1);
    }
}

proof fn lemma_ceil_from_same(t1: Seq<char>, t2: Seq<char>, b: int, j: int)
    requires
        0 <= j,
        t1.len() == t2.len(),
        forall|k: int| 0 <= k <= t1.len() ==> blen(#[trigger] t1.take(k)) == blen(t2.take(k)),
    ensures
        ceil_from(t1, b, j) == ceil_from(t2, b, j),
        0 <= ceil_from(t1, b, j) <= t1.len(),
    decreases t1.len() - j,
{
    if j < t1.len() {
        assert(blen(t1.take(j)) == blen(t2.take(j)));
        lemma_ceil_from_same(t1, t2, b, j + 1);
    }
}

/// A piece of `t` between `j1` and `j2`, after an ellipsis when `e1` and
/// before one when `e2`.
pub open spec fn framed(t: Seq<char>, j1: int, j2: int, e1: bool, e2: bool) -> Seq<char> {
    (if e1 { ellipsis() } else { Seq::empty() }) + t.subrange(j1, j2) + (if e2 { ellipsis() } else { Seq::empty() })
}

/// Snippets do not depend on case: two texts that agree once lower-cased,
/// with characters of the same byte lengths (such as two spellings of one
/// text in different ASCII case), are cut at the same places, so a term is
/// found in either whatever its case.
pub proof fn lemma_snippet_ignores_case(t1: Seq<char>, t2: Seq<char>, terms: Seq<Seq<char>>, radius: nat)
    requires
        lowercase(t1) == lowercase(t2),
        t1.len() == t2.len(),
        forall|k: int| 0 <= k <= t1.len() ==> blen(#[trigger] t1.take(k)) == blen(t2.take(k)),
    ensures
        exists|j1: int, j2: int, e1: bool, e2: bool|
            0 <= j1 <= j2 <= t1.len() && snippet(t1, terms, radius) == #[trigger] framed(t1, j1, j2, e1, e2)
                && snippet(t2, terms, radius) == framed(t2, j1, j2, e1, e2),
{
    assert(t1.take(t1.len() as int) =~= t1);
    assert(t2.take(t2.len() as int) =~= t2);
    assert(blen(t1) == blen(t2));
    match best_match(lowercase(t1), terms) {
        None => {
            let k = if 2 * radius < t1.len() { 2 * radius as int } else { t1.len() as int };
            assert(snippet(t1, terms, radius) =~= framed(t1, 0, k, false, false));
            assert(snippet(t2, terms, radius) =~= framed(t2, 0, k, false, false));
        },
        Some((pos, len)) => {
            let lo: int = if pos >= radius { pos - radius } else { 0 };
            let hi = if pos + len + radius < blen(t1) { (pos + len + radius) as int } else { blen(t1) as int };
            lemma_floor_from_same(t1, t2, lo, t1.len() as int);
            lemma_ceil_from_same(t1, t2, hi, 0);
            let j1 = floor_from(t1, lo, t1.len() as int);
            let j2 = ceil_from(t1, hi, 0);
            let e1 = j1 > 0;
            let e2 = j2 < t1.len();
            if j1 <= j2 {
                assert(snippet(t1, terms, radius) =~= framed(t1, j1, j2, e1, e2));
                assert(snippet(t2, terms, radius) =~= framed(t2, j1, j2, e1, e2));
            } else {
                assert(snippet(t1, terms, radius) =~= framed(t1, j2, j2, e1, e2));
                assert(snippet(t2, terms, radius) =~= framed(t2, j2, j2, e1, e2));
            }
        },
    }
}

/// Whether `t` occurs in `hay` starting at character `k`.
pub open spec fn occurs_at(hay: Seq<char>, t: Seq<char>, k: int) -> bool {
    0 <= k && k + t.len() <= hay.len() && hay.subrange(k, k + t.len()) == t
}

proof fn lemma_best_match_none(lower: Seq<char>, terms: Seq<Seq<char>>)
    requires
        forall|i: int, k: int| 0 <= i < terms.len() ==> !#[trigger] occurs_at(lower, terms[i], k),
    ensures
        best_match(lower, terms) is None,
    decreases terms.len(),
{
    if terms.len() > 0 {
        let t = terms.last();
        assert forall|i: int, k: int| 0 <= i < terms.drop_last().len() implies !#[trigger] occurs_at(lower, terms.drop_last()[i], k) by {
            assert(terms.drop_last()[i] == terms[i]);
        }
        lemma_best_match_none(lower, terms.drop_last());
        lemma_find_from(lower, t, 0);
        if let Some(k) = find_from(lower, t, 0) {
            assert(!occurs_at(lower, terms[terms.len() - 1], k));
        }
    }
}

/// When no query term occurs in the lower-cased text, whatever the case of
/// the text, the snippet is the text's first `2 * radius` characters.
pub proof fn lemma_snippet_without_match(text: Seq<char>, terms: Seq<Seq<char>>, radius: nat)
    requires
        forall|i: int, k: int| 0 <= i < terms.len() ==> !#[trigger] occurs_at(lowercase(text), terms[i], k),
    ensures
        snippet(text, terms, radius) == text.take(if 2 * radius < text.len() { 2 * radius as int } else { text.len() as int }),
{
    lemma_best_match_none(lowercase(text), terms);
}

/// `t2` is `t1` with letters in another case: the same lower-cased form,
/// the same characters' byte lengths and the same ASCII letters and digits
/// at the same places.
pub open spec fn same_but_case(t1: Seq<char>, t2: Seq<char>) -> bool {
    &&& lowercase(t1) == lowercase(t2)
    &&& t1.len() == t2.len()
    &&& forall|k: int| 0 <= k <= t1.len() ==> blen(#[trigger] t1.take(k)) == blen(t2.take(k))
    &&& forall|k: int| 0 <= k < t1.len() ==> is_ascii_alnum(#[trigger] t1[k]) == is_ascii_alnum(t2[k])
}

proof fn lemma_offset_index_same(t1: Seq<char>, t2: Seq<char>, b: int)
    requires
        t1.len() == t2.len(),
        forall|k: int| 0 <= k <= t1.len() ==> blen(#[trigger] t1.take(k)) == blen(t2.take(k)),
    ensures
        offset_index(t1, b) == offset_index(t2, b),
{
    if exists|j: int| 0 <= j <= t1.len() && blen(t1.take(j)) == b {
        let j = choose|j: int| 0 <= j <= t1.len() && blen(t1.take(j)) == b;
        lemma_offset_index(t1, j);
        assert(blen(t2.take(j)) == b);
        lemma_offset_index(t2, j);
    } else {
        assert forall|j: int| 0 <= j <= t2.len() implies blen(t2.take(j)) != b by {
            assert(blen(t1.take(j)) == blen(t2.take(j)));
        }
    }
}

proof fn lemma_first_end_same(t1: Seq<char>, t2: Seq<char>, lower: Seq<char>, terms: Seq<Seq<char>>, p: int)
    requires
        same_but_case(t1, t2),
        0 <= p <= t1.len(),
    ensures
        first_end(t1, lower, terms, p) == first_end(t2, lower, terms, p),
    decreases terms.len(),
{
    if terms.len() > 0 {
        let t = terms[0];
        let b = blen(t1.take(p)) as int;
        assert(blen(t2.take(p)) == b);
        lemma_offset_index_same(t1, t2, b + blen(t));
        if let Some(q) = offset_index(t1, b + blen(t)) {
            if p > 0 {
                assert(is_ascii_alnum(t1[p - 1]) == is_ascii_alnum(t2[p - 1]));
            }
            if q < t1.len() {
                assert(0 <= q);
                assert(is_ascii_alnum(t1[q]) == is_ascii_alnum(t2[q]));
            }
        }
        assert(term_end(t1, lower, p, t) == term_end(t2, lower, p, t));
        lemma_first_end_same(t1, t2, lower, terms.drop_first(), p);
    }
}

/// The marked texts of `t1` and `t2` have the same length, and at each
/// place hold the same character or the characters of `t1` and `t2` at one
/// same position.
pub open spec fn same_marks(o1: Seq<char>, o2: Seq<char>, t1: Seq<char>, t2: Seq<char>) -> bool {
    &&& o1.len() == o2.len()
    &&& forall|k: int| 0 <= k < o1.len() ==> #[trigger] o1[k] == o2[k]
        || exists|m: int| 0 <= m < t1.len() && o1[k] == #[trigger] t1[m] && o2[k] == t2[m]
}

proof fn lemma_marked_same(t1: Seq<char>, t2: Seq<char>, lower: Seq<char>, terms: Seq<Seq<char>>, open: Seq<char>, close: Seq<char>, p: int)
    requires
        same_but_case(t1, t2),
        0 <= p,
    ensures
        same_marks(marked_from(t1, lower, terms, open, close, p), marked_from(t2, lower, terms, open, close, p), t1, t2),
    decreases t1.len() - p,
{
    let o1 = marked_from(t1, lower, terms, open, close, p);
    let o2 = marked_from(t2, lower, terms, open, close, p);
    if p < t1.len() {
        lemma_first_end_same(t1, t2, lower, terms, p);
        let fe = first_end(t1, lower, terms, p);
        if fe is Some && p < fe->0 <= t1.len() {
            let q = fe->0;
            lemma_marked_same(t1, t2, lower, terms, open, close, q);
            let r1 = marked_from(t1, lower, terms, open, close, q);
            let r2 = marked_from(t2, lower, terms, open, close, q);
            let a1 = open + t1.subrange(p, q) + close;
            let a2 = open + t2.subrange(p, q) + close;
            assert(o1 == a1 + r1);
            assert(o2 == a2 + r2);
            assert forall|k: int| 0 <= k < o1.len() implies #[trigger] o1[k] == o2[k]
                || exists|m: int| 0 <= m < t1.len() && o1[k] == #[trigger] t1[m] && o2[k] == t2[m] by {
                if k < open.len() {
                    assert(o1[k] == open[k] && o2[k] == open[k]);
                } else if k < open.len() + (q - p) {
                    let m = p + k - open.len();
                    assert(o1[k] == t1[m] && o2[k] == t2[m]);
                } else if k < a1.len() {
                    assert(o1[k] == close[k - open.len() - (q - p)]);
                    assert(o2[k] == close[k - open.len() - (q - p)]);
                } else {
                    assert(o1[k] == r1[k - a1.len()] && o2[k] == r2[k - a1.len()]);
                }
            }
        } else {
            lemma_marked_same(t1, t2, lower, terms, open, close, p + 1);
            let r1 = marked_from(t1, lower, terms, open, close, p + 1);
            let r2 = marked_from(t2, lower, terms, open, close, p + 1);
            assert(o1 == seq![t1[p]] + r1);
            assert(o2 == seq![t2[p]] + r2);
            assert forall|k: int| 0 <= k < o1.len() implies #[trigger] o1[k] == o2[k]
                || exists|m: int| 0 <= m < t1.len() && o1[k] == #[trigger] t1[m] && o2[k] == t2[m] by {
                if k == 0 {
                    assert(o1[0] == t1[p] && o2[0] == t2[p]);
                } else {
                    assert(o1[k] == r1[k - 1] && o2[k] == r2[k - 1]);
                }
            }
        }
    }
}

/// Highlighting does not depend on case: a text with letters in another
/// case (`same_but_case`) is marked at the same places, so its highlighted
/// form has the same length and differs only where the two texts differ.
pub proof fn lemma_highlight_ignores_case(t1: Seq<char>, t2: Seq<char>, terms: Seq<Seq<char>>, open: Seq<char>, close: Seq<char>)
    requires
        same_but_case(t1, t2),
    ensures
        same_marks(highlighted(t1, terms, open, close), highlighted(t2, terms, open, close), t1, t2),
{
    if normalized(terms).len() == 0 {
        assert forall|k: int| 0 <= k < t1.len() implies #[trigger] t1[k] == t2[k]
            || exists|m: int| 0 <= m < t1.len() && t1[k] == #[trigger] t1[m] && t2[k] == t2[m] by {
            assert(t1[k] == t1[k]);
        }
    } else {
        lemma_marked_same(t1, t2, lowercase(t1), normalized(terms), open, close, 0);
    }
}

proof fn lemma_best_match_at(lower: Seq<char>, terms: Seq<Seq<char>>, i: int, j: int)
    requires
        0 <= i,
        i < terms.len() ==> occurs_at(lower, terms[i], j),
        forall|a: int, k: int| 0 <= a < terms.len() && k < j ==> !#[trigger] occurs_at(lower, terms[a], k),
        forall|a: int| 0 <= a < i && a < terms.len() ==> !#[trigger] occurs_at(lower, terms[a], j),
        0 <= j <= lower.len(),
    ensures
        i < terms.len() ==> best_match(lower, terms) == Some((blen(lower.take(j)), blen(terms[i]))),
        i >= terms.len() ==> (best_match(lower, terms) matches Some((x, _)) ==> x > blen(lower.take(j))),
    decreases terms.len(),
{
    if terms.len() > 0 {
        let n = terms.len() - 1;
        let prev_terms = terms.drop_last();
        assert forall|a: int, k: int| 0 <= a < prev_terms.len() && k < j implies !#[trigger] occurs_at(lower, prev_terms[a], k) by {
            assert(prev_terms[a] == terms[a]);
        }
        assert forall|a: int| 0 <= a < i && a < prev_terms.len() implies !#[trigger] occurs_at(lower, prev_terms[a], j) by {
            assert(prev_terms[a] == terms[a]);
        }
        if i < n {
            assert(prev_terms[i] == terms[i]);
        }
        lemma_best_match_at(lower, prev_terms, i, j);
        let t = terms[n];
        lemma_find_from(lower, t, 0);
        if let Some(k0) = find_from(lower, t, 0) {
            assert(occurs_at(lower, terms[n], k0));
            assert(k0 >= j);
            if i == n {
                lemma_find_from_finds(lower, t, 0, j);
                assert(k0 == j);
            } else if k0 > j {
                lemma_blen_take_mono(lower, j, k0);
            } else {
                assert(i < n);
            }
        } else if i == n {
            lemma_find_from_finds(lower, t, 0, j);
        }
    }
}

proof fn lemma_floor_from_bound(t: Seq<char>, b: int, j: int)
    requires
        0 <= j <= t.len(),
    ensures
        0 <= floor_from(t, b, j) <= j,
        floor_from(t, b, j) == 0 || blen(t.take(floor_from(t, b, j))) <= b,
    decreases j,
{
    if j > 0 && blen(t.take(j)) > b {
        lemma_floor_from_bound(t, b, j - 1);
    }
}

proof fn lemma_ceil_from_bound(t: Seq<char>, b: int, j: int)
    requires
        0 <= j <= t.len(),
    ensures
        j <= ceil_from(t, b, j) <= t.len(),
        forall|x: int| j <= x < ceil_from(t, b, j) ==> blen(#[trigger] t.take(x)) < b,
        ceil_from(t, b, j) < t.len() ==> blen(t.take(ceil_from(t, b, j))) >= b,
    decreases t.len() - j,
{
    if j < t.len() && blen(t.take(j)) < b {
        lemma_ceil_from_bound(t, b, j + 1);
    }
}

/// Terms are found in the text whatever its case: when term `i` occurs at
/// character `j` of the lower-cased text, no term occurs earlier and no
/// earlier term at `j` (the match a snippet is cut around), and lower-casing
/// keeps the characters' byte lengths, the snippet holds the text's
/// characters of that occurrence.
pub proof fn lemma_snippet_holds_match(text: Seq<char>, terms: Seq<Seq<char>>, radius: nat, i: int, j: int)
    requires
        lowercase(text).len() == text.len(),
        forall|k: int| 0 <= k <= text.len() ==> blen(#[trigger] lowercase(text).take(k)) == blen(text.take(k)),
        0 <= i < terms.len(),
        terms[i].len() > 0,
        occurs_at(lowercase(text), terms[i], j),
        forall|a: int, k: int| 0 <= a < terms.len() && k < j ==> !#[trigger] occurs_at(lowercase(text), terms[a], k),
        forall|a: int| 0 <= a < i ==> !#[trigger] occurs_at(lowercase(text), terms[a], j),
    ensures
        exists|x: int| 0 <= x && x + terms[i].len() <= snippet(text, terms, radius).len()
            && #[trigger] snippet(text, terms, radius).subrange(x, x + terms[i].len()) == text.subrange(j, j + terms[i].len()),
{
    let low = lowercase(text);
    let tl = terms[i].len() as int;
    lemma_best_match_at(low, terms, i, j);
    let pos = blen(low.take(j));
    let len = blen(terms[i]);
    assert(low.take(j + tl) =~= low.take(j) + low.subrange(j, j + tl));
    lemma_blen_append(low.take(j), terms[i]);
    assert(blen(text.take(j)) == pos);
    assert(blen(text.take(j + tl)) == pos + len);
    assert(text.take(text.len() as int) =~= text);
    lemma_blen_take_mono(text, j + tl, text.len() as int);
    let lo: int = if pos >= radius { pos - radius } else { 0 };
    let hi = if pos + len + radius < blen(text) { (pos + len + radius) as int } else { blen(text) as int };
    lemma_floor_from_bound(text, lo, text.len() as int);
    lemma_ceil_from_bound(text, hi, 0);
    let j1 = floor_from(text, lo, text.len() as int);
    let j2 = ceil_from(text, hi, 0);
    if j1 > j {
        lemma_blen_take_mono(text, j, j1);
    }
    assert(j1 <= j);
    if j2 < j + tl {
        lemma_blen_take_mono(text, j2, j + tl);
    }
    assert(j + tl <= j2);
    let e = if j1 > 0 { ellipsis() } else { Seq::<char>::empty() };
    let f = if j2 < text.len() { ellipsis() } else { Seq::<char>::empty() };
    let out = snippet(text, terms, radius);
    assert(out == e + text.subrange(j1, j2) + f);
    let x = e.len() + (j - j1);
    assert(out.subrange(x, x + tl) =~= text.subrange(j, j + tl));
}

} // verus!
