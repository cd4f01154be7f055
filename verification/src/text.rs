//! Character-level helpers shared by the tokenizer, the parsers and the
//! highlighter. Text is handled as sequences of Unicode scalar values.
use vstd::prelude::*;

verus! {

/// The characters of a string slice, in order.
pub fn chars_of(s: &str) -> (r: Vec<char>)
    ensures
        r@ == s@,
{
    let mut out: Vec<char> = Vec::new();
    for c in it: s.chars()
        invariant
            out@ == it.seq().take(it.index() as int),
            it.seq() == s@,
    {
        out.push(c);
    }
    out
}

/// `String::push` (std): appends one character.
#[verifier::external_body]
pub(crate) fn string_push(s: &mut String, c: char)
    ensures
        final(s)@ == old(s)@.push(c),
{
    s.push(c);
}

/// A string made of the given characters.
pub fn string_of(cs: &[char]) -> (r: String)
    ensures
        r@ == cs@,
{
    let mut out = String::new();
    let mut i: usize = 0;
    while i < cs.len()
        invariant
            0 <= i <= cs.len(),
            out@ == cs@.take(i as int),
        decreases cs.len() - i,
    {
        string_push(&mut out, cs[i]);
        i += 1;
        assert(cs@.take(i as int) == cs@.take((i - 1) as int).push(cs@[i - 1]));
    }
    assert(cs@.take(cs.len() as int) == cs@);
    out
}


/// A copy of `cs[lo..hi]`.
pub fn sub_chars(cs: &[char], lo: usize, hi: usize) -> (r: Vec<char>)
    requires
        lo <= hi <= cs@.len(),
    ensures
        r@ == cs@.subrange(lo as int, hi as int),
{
    vstd::slice::slice_to_vec(vstd::slice::slice_subrange(cs, lo, hi))
}

/// ASCII letters and digits.
pub open spec fn is_ascii_alnum(c: char) -> bool {
    ('0' <= c && c <= '9') || ('a' <= c && c <= 'z') || ('A' <= c && c <= 'Z')
}

pub fn ascii_alnum(c: char) -> (r: bool)
    ensures
        r == is_ascii_alnum(c),
{
    ('0' <= c && c <= '9') || ('a' <= c && c <= 'z') || ('A' <= c && c <= 'Z')
}

/// ASCII case folding of one character (`char::to_ascii_lowercase`).
pub open spec fn ascii_lower(c: char) -> char {
    if 'A' <= c && c <= 'Z' {
        ((c as u32) + 32) as char
    } else {
        c
    }
}

pub fn ascii_lower_char(c: char) -> (r: char)
    ensures
        r == ascii_lower(c),
{
    if 'A' <= c && c <= 'Z' {
        let v: u8 = (c as u8) + 32;
        v as char
    } else {
        c
    }
}

/// ASCII case folding of a whole sequence (`str::to_ascii_lowercase`).
pub open spec fn ascii_lower_seq(s: Seq<char>) -> Seq<char> {
    s.map_values(|c: char| ascii_lower(c))
}

pub fn ascii_lower_chars(cs: &[char]) -> (r: Vec<char>)
    ensures
        r@ == ascii_lower_seq(cs@),
{
    let mut out: Vec<char> = Vec::new();
    let mut i: usize = 0;
    while i < cs.len()
        invariant
            0 <= i <= cs.len(),
            out@ == ascii_lower_seq(cs@.take(i as int)),
        decreases cs.len() - i,
    {
        out.push(ascii_lower_char(cs[i]));
        i += 1;
        assert(ascii_lower_seq(cs@.take(i as int)) =~= ascii_lower_seq(cs@.take((i - 1) as int)).push(ascii_lower(cs@[i - 1])));
    }
    assert(cs@.take(cs.len() as int) == cs@);
    out
}

/// What `char::is_alphanumeric` (std) answers for a character.
pub uninterp spec fn unicode_alphanumeric(c: char) -> bool;

/// `char::is_whitespace`: the Unicode White_Space property, which holds
/// for U+0009..=U+000D, U+0020, U+0085, U+00A0, U+1680, U+2000..=U+200A,
/// U+2028, U+2029, U+202F, U+205F and U+3000.
pub open spec fn unicode_whitespace(c: char) -> bool {
    let v = c as u32;
    (0x09 <= v && v <= 0x0D) || v == 0x20 || v == 0x85 || v == 0xA0 || v == 0x1680 || (0x2000 <= v && v <= 0x200A)
        || v == 0x2028 || v == 0x2029 || v == 0x202F || v == 0x205F || v == 0x3000
}


/// What `str::to_lowercase` (std) returns for a text.
pub uninterp spec fn lowercase(s: Seq<char>) -> Seq<char>;

/// `char::is_alphanumeric` (std): whether the character has the Unicode
/// Alphabetic or Numeric property. Its answer is given the name
/// `unicode_alphanumeric`; the Unicode tables themselves are not stated.
#[verifier::external_body]
pub(crate) fn char_is_alphanumeric(c: char) -> (r: bool)
    ensures
        r == unicode_alphanumeric(c),
{
    c.is_alphanumeric()
}

pub fn char_is_whitespace(c: char) -> (r: bool)
    ensures
        r == unicode_whitespace(c),
{
    let v = c as u32;
    (0x09 <= v && v <= 0x0D) || v == 0x20 || v == 0x85 || v == 0xA0 || v == 0x1680 || (0x2000 <= v && v <= 0x200A)
        || v == 0x2028 || v == 0x2029 || v == 0x202F || v == 0x205F || v == 0x3000
}

/// `char::is_control`: the Unicode general category Cc, which is exactly
/// U+0000..=U+001F and U+007F..=U+009F.
pub open spec fn is_control(c: char) -> bool {
    (c as u32) <= 0x1F || (0x7F <= (c as u32) && (c as u32) <= 0x9F)
}

pub fn char_is_control(c: char) -> (r: bool)
    ensures
        r == is_control(c),
{
    (c as u32) <= 0x1F || (0x7F <= (c as u32) && (c as u32) <= 0x9F)
}

/// `str::to_lowercase` (std): the Unicode lowercase mapping of a text. The
/// result is given the name `lowercase`; the mapping is not stated.
#[verifier::external_body]
pub(crate) fn to_lowercase(s: &str) -> (r: String)
    ensures
        r@ == lowercase(s@),
{
    s.to_lowercase()
}

/// The character classes by which texts are trimmed.
#[derive(Clone, Copy, PartialEq, Eq, Debug)]
pub enum TrimPattern {
    /// Unicode white space (`str::trim`).
    Whitespace,
    /// One given character (`str::trim_matches(c)`).
    Char(char),
    /// Anything but a letter, digit or `-`.
    NotTagChar,
}

pub open spec fn pattern_holds(p: TrimPattern, c: char) -> bool {
    match p {
        TrimPattern::Whitespace => unicode_whitespace(c),
        TrimPattern::Char(x) => c == x,
        TrimPattern::NotTagChar => !unicode_alphanumeric(c) && c != '-',
    }
}

pub fn pattern_matches(p: TrimPattern, c: char) -> (r: bool)
    ensures
        r == pattern_holds(p, c),
{
    match p {
        TrimPattern::Whitespace => char_is_whitespace(c),
        TrimPattern::Char(x) => c == x,
        TrimPattern::NotTagChar => !char_is_alphanumeric(c) && c != '-',
    }
}

/// The text without the characters of the class at its start.
pub open spec fn trim_start_by(s: Seq<char>, p: TrimPattern) -> Seq<char>
    decreases s.len(),
{
    if s.len() > 0 && pattern_holds(p, s[0]) {
        trim_start_by(s.drop_first(), p)
    } else {
        s
    }
}

/// The text without the characters of the class at its end.
pub open spec fn trim_end_by(s: Seq<char>, p: TrimPattern) -> Seq<char>
    decreases s.len(),
{
    if s.len() > 0 && pattern_holds(p, s.last()) {
        trim_end_by(s.drop_last(), p)
    } else {
        s
    }
}

/// The text without the characters of the class at both ends.
pub open spec fn trim_by(s: Seq<char>, p: TrimPattern) -> Seq<char> {
    trim_end_by(trim_start_by(s, p), p)
}

/// `str::trim`: the text without white space at both ends.
pub open spec fn trim(s: Seq<char>) -> Seq<char> {
    trim_by(s, TrimPattern::Whitespace)
}

/// Index of the first character of `cs[lo..hi]` outside the class.
pub fn trim_start_index(cs: &[char], lo: usize, hi: usize, p: TrimPattern) -> (r: usize)
    requires
        lo <= hi <= cs@.len(),
    ensures
        lo <= r <= hi,
        cs@.subrange(r as int, hi as int) == trim_start_by(cs@.subrange(lo as int, hi as int), p),
{
    let mut i = lo;
    while i < hi && pattern_matches(p, cs[i])
        invariant
            lo <= i <= hi <= cs@.len(),
            trim_start_by(cs@.subrange(lo as int, hi as int), p) == trim_start_by(cs@.subrange(i as int, hi as int), p),
        decreases hi - i,
    {
        assert(cs@.subrange(i as int, hi as int).drop_first() =~= cs@.subrange(i + 1, hi as int));
        i += 1;
    }
    i
}

/// Index just past the last character of `cs[lo..hi]` outside the class.
pub fn trim_end_index(cs: &[char], lo: usize, hi: usize, p: TrimPattern) -> (r: usize)
    requires
        lo <= hi <= cs@.len(),
    ensures
        lo <= r <= hi,
        cs@.subrange(lo as int, r as int) == trim_end_by(cs@.subrange(lo as int, hi as int), p),
{
    let mut j = hi;
    while j > lo && pattern_matches(p, cs[j - 1])
        invariant
            lo <= j <= hi <= cs@.len(),
            trim_end_by(cs@.subrange(lo as int, hi as int), p) == trim_end_by(cs@.subrange(lo as int, j as int), p),
        decreases j - lo,
    {
        assert(cs@.subrange(lo as int, j as int).drop_last() =~= cs@.subrange(lo as int, j - 1));
        j -= 1;
    }
    j
}

/// `cs` trimmed of the class at both ends.
pub fn trim_chars_by(cs: &[char], p: TrimPattern) -> (r: Vec<char>)
    ensures
        r@ == trim_by(cs@, p),
{
    let a = trim_start_index(cs, 0, cs.len(), p);
    let b = trim_end_index(cs, a, cs.len(), p);
    assert(cs@.subrange(0, cs@.len() as int) == cs@);
    sub_chars(cs, a, b)
}

/// `cs` trimmed of white space at both ends.
pub fn trim_chars(cs: &[char]) -> (r: Vec<char>)
    ensures
        r@ == trim(cs@),
{
    trim_chars_by(cs, TrimPattern::Whitespace)
}


proof fn lemma_trim_start_by(s: Seq<char>, p: TrimPattern)
    ensures
        trim_start_by(s, p).len() <= s.len(),
        trim_start_by(s, p) == s.skip(s.len() - trim_start_by(s, p).len()),
        trim_start_by(s, p).len() > 0 ==> !pattern_holds(p, trim_start_by(s, p)[0]),
        trim_start_by(s, p).len() > 0 ==> trim_start_by(trim_start_by(s, p), p) == trim_start_by(s, p),
    decreases s.len(),
{
    if s.len() > 0 && pattern_holds(p, s[0]) {
        lemma_trim_start_by(s.drop_first(), p);
        let r = trim_start_by(s, p);
        assert(s.drop_first().skip(s.drop_first().len() - r.len()) =~= s.skip(s.len() - r.len()));
    } else {
        assert(s.skip(0) =~= s);
    }
}

proof fn lemma_trim_end_by(s: Seq<char>, p: TrimPattern)
    ensures
        trim_end_by(s, p).len() <= s.len(),
        trim_end_by(s, p) == s.take(trim_end_by(s, p).len() as int),
        trim_end_by(s, p).len() > 0 ==> !pattern_holds(p, trim_end_by(s, p).last()),
        trim_end_by(s, p).len() > 0 ==> trim_end_by(trim_end_by(s, p), p) == trim_end_by(s, p),
    decreases s.len(),
{
    if s.len() > 0 && pattern_holds(p, s.last()) {
        lemma_trim_end_by(s.drop_last(), p);
        let r = trim_end_by(s, p);
        assert(s.drop_last().take(r.len() as int) =~= s.take(r.len() as int));
    } else {
        assert(s.take(s.len() as int) =~= s);
    }
}

/// What `trim_by` leaves neither starts nor ends with a character of the
/// class, and trimming it again changes nothing.
pub proof fn lemma_trim_by(s: Seq<char>, p: TrimPattern)
    ensures
        trim_by(s, p).len() > 0 ==> !pattern_holds(p, trim_by(s, p)[0]) && !pattern_holds(p, trim_by(s, p).last()),
        trim_by(trim_by(s, p), p) == trim_by(s, p),
{
    let a = trim_start_by(s, p);
    let r = trim_end_by(a, p);
    lemma_trim_start_by(s, p);
    lemma_trim_end_by(a, p);
    if r.len() > 0 {
        assert(r[0] == a[0]);
        lemma_trim_start_by(r, p);
        assert(trim_start_by(r, p) == r);
        lemma_trim_end_by(r, p);
    }
}

/// Strict lexicographic order on texts, character by character; on
/// strings this is the order of `String`'s `Ord`.
pub open spec fn seq_less(a: Seq<char>, b: Seq<char>) -> bool
    decreases a.len(),
{
    if a.len() == 0 {
        b.len() > 0
    } else if b.len() == 0 {
        false
    } else if a[0] != b[0] {
        a[0] < b[0]
    } else {
        seq_less(a.drop_first(), b.drop_first())
    }
}

pub proof fn lemma_less_irreflexive(a: Seq<char>)
    ensures
        !seq_less(a, a),
    decreases a.len(),
{
    if a.len() > 0 {
        lemma_less_irreflexive(a.drop_first());
    }
}

pub proof fn lemma_less_transitive(a: Seq<char>, b: Seq<char>, c: Seq<char>)
    requires
        seq_less(a, b),
        seq_less(b, c),
    ensures
        seq_less(a, c),
    decreases a.len(),
{
    if a.len() > 0 && b.len() > 0 && c.len() > 0 && a[0] == b[0] && b[0] == c[0] {
        lemma_less_transitive(a.drop_first(), b.drop_first(), c.drop_first());
    }
}

pub proof fn lemma_less_total(a: Seq<char>, b: Seq<char>)
    ensures
        a == b || seq_less(a, b) || seq_less(b, a),
    decreases a.len(),
{
    if a.len() > 0 && b.len() > 0 && a[0] == b[0] {
        lemma_less_total(a.drop_first(), b.drop_first());
        if a.drop_first() == b.drop_first() {
            assert(a =~= seq![a[0]] + a.drop_first());
            assert(b =~= seq![b[0]] + b.drop_first());
        }
    } else if a.len() == 0 && b.len() == 0 {
        assert(a =~= b);
    }
}

/// Whether `a` comes strictly before `b`.
pub fn chars_less(a: &[char], b: &[char]) -> (r: bool)
    ensures
        r == seq_less(a@, b@),
{
    let mut i: usize = 0;
    assert(a@.skip(0) == a@ && b@.skip(0) == b@);
    while i < a.len() && i < b.len() && a[i] == b[i]
        invariant
            0 <= i <= a@.len(),
            i <= b@.len(),
            seq_less(a@, b@) == seq_less(a@.skip(i as int), b@.skip(i as int)),
        decreases a.len() - i,
    {
        assert(a@.skip(i as int).drop_first() =~= a@.skip(i + 1));
        assert(b@.skip(i as int).drop_first() =~= b@.skip(i + 1));
        i += 1;
    }
    if i == a.len() {
        i < b.len()
    } else if i == b.len() {
        false
    } else {
        a[i] < b[i]
    }
}

/// Whether the strings are equal.
pub fn chars_eq(a: &[char], b: &[char]) -> (r: bool)
    ensures
        r == (a@ == b@),
{
    if a.len() != b.len() {
        return false;
    }
    let mut i: usize = 0;
    while i < a.len()
        invariant
            a@.len() == b@.len(),
            0 <= i <= a@.len(),
            forall|k: int| 0 <= k < i ==> a@[k] == b@[k],
        decreases a.len() - i,
    {
        if a[i] != b[i] {
            return false;
        }
        i += 1;
    }
    assert(a@ =~= b@);
    true
}

/// A sequence of texts in strictly increasing order (so without repeats).
pub open spec fn strictly_sorted(v: Seq<Seq<char>>) -> bool {
    forall|i: int, j: int| 0 <= i < j < v.len() ==> seq_less(#[trigger] v[i], #[trigger] v[j])
}

/// A strictly sorted list holds its least item first, before all others.
proof fn lemma_sorted_first(a: Seq<Seq<char>>, x: Seq<char>)
    requires
        strictly_sorted(a),
        a.len() > 0,
        a.contains(x),
        x != a[0],
    ensures
        seq_less(a[0], x),
{
    let k = choose|k: int| 0 <= k < a.len() && a[k] == x;
    assert(k != 0);
}

/// A strictly sorted list is determined by the set of its items: sorting
/// and removing repeats gives one answer, whatever the order and the
/// repeats of what went in (the terms of a query, the tags of a document).
pub proof fn lemma_sorted_determined(a: Seq<Seq<char>>, b: Seq<Seq<char>>)
    requires
        strictly_sorted(a),
        strictly_sorted(b),
        a.to_set() == b.to_set(),
    ensures
        a == b,
    decreases a.len(),
{
    if a.len() == 0 || b.len() == 0 {
        if b.len() > 0 {
            assert(b.to_set().contains(b[0]));
            assert(a.to_set().contains(b[0]));
        }
        if a.len() > 0 {
            assert(a.to_set().contains(a[0]));
            assert(b.to_set().contains(a[0]));
        }
        assert(a =~= b);
    } else {
        assert(a.to_set().contains(a[0]));
        assert(b.to_set().contains(b[0]));
        assert(b.contains(a[0]));
        assert(a.contains(b[0]));
        if a[0] != b[0] {
            lemma_sorted_first(b, a[0]);
            lemma_sorted_first(a, b[0]);
            lemma_less_transitive(a[0], b[0], a[0]);
            lemma_less_irreflexive(a[0]);
        }
        let ra = a.drop_first();
        let rb = b.drop_first();
        assert forall|x: Seq<char>| ra.to_set().contains(x) implies rb.to_set().contains(x) by {
            let k = choose|k: int| 0 <= k < ra.len() && ra[k] == x;
            assert(a[k + 1] == x);
            assert(seq_less(a[0], x));
            lemma_less_irreflexive(x);
            assert(a.to_set().contains(x));
            assert(b.contains(x));
            let j = choose|j: int| 0 <= j < b.len() && b[j] == x;
            assert(j != 0);
            assert(rb[j - 1] == x);
        }
        assert forall|x: Seq<char>| rb.to_set().contains(x) implies ra.to_set().contains(x) by {
            let k = choose|k: int| 0 <= k < rb.len() && rb[k] == x;
            assert(b[k + 1] == x);
            assert(seq_less(b[0], x));
            lemma_less_irreflexive(x);
            assert(b.to_set().contains(x));
            assert(a.contains(x));
            let j = choose|j: int| 0 <= j < a.len() && a[j] == x;
            assert(j != 0);
            assert(ra[j - 1] == x);
        }
        assert(ra.to_set() =~= rb.to_set());
        lemma_sorted_determined(ra, rb);
        assert(a =~= seq![a[0]] + ra);
        assert(b =~= seq![b[0]] + rb);
    }
}

/// Inserts `s` into a strictly sorted list of strings unless it is there.
pub fn insert_sorted_unique(v: &mut Vec<String>, s: String)
    requires
        strictly_sorted(old(v).deep_view()),
    ensures
        strictly_sorted(final(v).deep_view()),
        final(v).deep_view().to_set() == old(v).deep_view().to_set().insert(s@),
{
    let ghost old_v = v.deep_view();
    let sc = chars_of(s.as_str());
    let mut p: usize = 0;
    while p < v.len() && chars_less(chars_of(v[p].as_str()).as_slice(), sc.as_slice())
        invariant
            0 <= p <= v@.len(),
            v.deep_view() == old_v,
            sc@ == s@,
            forall|k: int| 0 <= k < p ==> seq_less(#[trigger] old_v[k], s@),
        decreases v.len() - p,
    {
        p += 1;
    }
    if p < v.len() && chars_eq(chars_of(v[p].as_str()).as_slice(), sc.as_slice()) {
        assert(old_v.to_set() =~= old_v.to_set().insert(s@)) by {
            assert(old_v[p as int] == s@);
        }
        return;
    }
    proof {
        if p < v.len() {
            lemma_less_total(old_v[p as int], s@);
            assert(seq_less(s@, old_v[p as int]));
        }
    }
    v.insert(p, s);
    let ghost new_v = v.deep_view();
    assert(new_v =~= old_v.insert(p as int, s@));
    assert forall|i: int, j: int| 0 <= i < j < new_v.len() implies seq_less(#[trigger] new_v[i], #[trigger] new_v[j]) by {
        if j < p {
        } else if j == p {
        } else if i == p {
            if j - 1 > p {
                lemma_less_transitive(s@, old_v[p as int], old_v[j - 1]);
            }
        } else if i < p {
            if j - 1 > p {
                lemma_less_transitive(s@, old_v[p as int], old_v[j - 1]);
            }
            lemma_less_transitive(old_v[i], s@, old_v[j - 1]);
        } else {
        }
    }
    assert(new_v.to_set() =~= old_v.to_set().insert(s@)) by {
        assert forall|x: Seq<char>| new_v.to_set().contains(x) implies old_v.to_set().insert(s@).contains(x) by {
            let k = choose|k: int| 0 <= k < new_v.len() && new_v[k] == x;
            if k < p {
                assert(old_v[k] == x);
            } else if k > p {
                assert(old_v[k - 1] == x);
            }
        }
        assert forall|x: Seq<char>| old_v.to_set().insert(s@).contains(x) implies new_v.to_set().contains(x) by {
            if x == s@ {
                assert(new_v[p as int] == x);
            } else {
                let k = choose|k: int| 0 <= k < old_v.len() && old_v[k] == x;
                if k < p {
                    assert(new_v[k] == x);
                } else {
                    assert(new_v[k + 1] == x);
                }
            }
        }
    }
}

/// Sorted list of the distinct strings of `items` (`sort` then `dedup`).
pub fn sorted_unique(items: &Vec<String>) -> (r: Vec<String>)
    ensures
        strictly_sorted(r.deep_view()),
        r.deep_view().to_set() == items.deep_view().to_set(),
{
    let mut out: Vec<String> = Vec::new();
    let mut i: usize = 0;
    assert(out.deep_view().to_set() =~= items.deep_view().take(0).to_set());
    while i < items.len()
        invariant
            0 <= i <= items@.len(),
            strictly_sorted(out.deep_view()),
            out.deep_view().to_set() == items.deep_view().take(i as int).to_set(),
        decreases items.len() - i,
    {
        insert_sorted_unique(&mut out, items[i].clone());
        assert(items.deep_view().take(i + 1) =~= items.deep_view().take(i as int).push(items[i as int]@));
        proof {
            items.deep_view().take(i as int).lemma_push_to_set_commute(items[i as int]@);
        }
        i += 1;
    }
    assert(items.deep_view().take(i as int) =~= items.deep_view());
    out
}


/// The texts of `list` with `sep` between each two of them.
pub open spec fn join(list: Seq<Seq<char>>, sep: Seq<char>) -> Seq<char>
    decreases list.len(),
{
    if list.len() == 0 {
        Seq::empty()
    } else if list.len() == 1 {
        list[0]
    } else {
        join(list.drop_last(), sep) + sep + list.last()
    }
}

/// `[String]::join` on strings.
pub fn join_strings(list: &[String], sep: &str) -> (r: String)
    ensures
        r@ == join(list.deep_view(), sep@),
{
    let mut out = String::new();
    let ghost v = list.deep_view();
    let mut i: usize = 0;
    while i < list.len()
        invariant
            0 <= i <= list@.len(),
            v == list.deep_view(),
            out@ == join(v.take(i as int), sep@),
        decreases list.len() - i,
    {
        assert(v.take(i + 1).drop_last() =~= v.take(i as int));
        if i > 0 {
            out.append(sep);
        }
        out.append(list[i].as_str());
        proof {
            if i == 0 {
                assert(v.take(1) =~= seq![v[0]]);
                assert(out@ =~= join(v.take(1), sep@));
            }
        }
        i += 1;
    }
    assert(v.take(i as int) =~= v);
    out
}

/// A copy of a list of strings.
pub fn clone_strings(list: &[String]) -> (r: Vec<String>)
    ensures
        r.deep_view() == list.deep_view(),
{
    let mut out: Vec<String> = Vec::new();
    let mut i: usize = 0;
    while i < list.len()
        invariant
            0 <= i <= list@.len(),
            out.deep_view() == list.deep_view().take(i as int),
        decreases list.len() - i,
    {
        let ghost before = out.deep_view();
        let item: &String = &list[i];
        let c = item.clone();
        assert(c@ == list.deep_view()[i as int]);
        out.push(c);
        assert(out.deep_view() =~= before.push(c@));
        assert(list.deep_view().take(i + 1) =~= list.deep_view().take(i as int).push(c@));
        i += 1;
    }
    assert(list.deep_view().take(i as int) =~= list.deep_view());
    out
}


/// Position of the first `c` in `s`.
pub open spec fn find_char(s: Seq<char>, c: char) -> Option<int>
    decreases s.len(),
{
    if s.len() == 0 {
        None
    } else if s[0] == c {
        Some(0)
    } else {
        match find_char(s.drop_first(), c) {
            Some(i) => Some(i + 1),
            None => None,
        }
    }
}

pub proof fn lemma_find_char(s: Seq<char>, c: char)
    ensures
        find_char(s, c) matches Some(i) ==> 0 <= i < s.len() && s[i] == c && forall|k: int| 0 <= k < i ==> s[k] != c,
        find_char(s, c) is None ==> forall|k: int| 0 <= k < s.len() ==> s[k] != c,
    decreases s.len(),
{
    if s.len() > 0 {
        lemma_find_char(s.drop_first(), c);
        if s[0] != c {
            assert forall|k: int| 1 <= k < s.len() implies s[k] == s.drop_first()[k - 1] by {}
        }
    }
}

/// Position of the first `c` in `cs[lo..]`, counted from the start of `cs`.
pub fn find_char_from(cs: &[char], lo: usize, c: char) -> (r: Option<usize>)
    requires
        lo <= cs@.len(),
    ensures
        r matches Some(i) ==> lo <= i < cs@.len() && find_char(cs@.skip(lo as int), c) == Some(i - lo),
        r is None ==> find_char(cs@.skip(lo as int), c) is None,
{
    let mut i = lo;
    proof {
        lemma_find_char(cs@.skip(lo as int), c);
    }
    while i < cs.len()
        invariant
            lo <= i <= cs@.len(),
            forall|k: int| lo <= k < i ==> cs@[k] != c,
        decreases cs.len() - i,
    {
        if cs[i] == c {
            proof {
                let t = cs@.skip(lo as int);
                lemma_find_char(t, c);
                match find_char(t, c) {
                    Some(j) => {
                        assert(t[i - lo] == c);
                        assert(!(j < i - lo)) by {
                            if j < i - lo {
                                assert(t[j] == cs@[lo + j]);
                            }
                        }
                        assert(!(j > i - lo));
                    },
                    None => {
                        assert(t[i - lo] == c);
                    },
                }
            }
            return Some(i);
        }
        i += 1;
    }
    proof {
        let t = cs@.skip(lo as int);
        lemma_find_char(t, c);
        if find_char(t, c) is Some {
            let j = find_char(t, c)->0;
            assert(t[j] == cs@[lo + j]);
        }
    }
    None
}

/// Whether `s` begins with `p`.
pub open spec fn starts_with(s: Seq<char>, p: Seq<char>) -> bool {
    p.len() <= s.len() && s.take(p.len() as int) == p
}

pub fn chars_start_with(s: &[char], p: &[char]) -> (r: bool)
    ensures
        r == starts_with(s@, p@),
{
    if p.len() > s.len() {
        return false;
    }
    let mut i: usize = 0;
    while i < p.len()
        invariant
            p@.len() <= s@.len(),
            0 <= i <= p@.len(),
            forall|k: int| 0 <= k < i ==> s@[k] == p@[k],
        decreases p.len() - i,
    {
        if s[i] != p[i] {
            assert(s@.take(p@.len() as int)[i as int] != p@[i as int]);
            return false;
        }
        i += 1;
    }
    assert(s@.take(p@.len() as int) =~= p@);
    true
}

/// Number of `c` at the start of `s`.
pub open spec fn leading_count(s: Seq<char>, c: char) -> nat
    decreases s.len(),
{
    if s.len() > 0 && s[0] == c {
        1 + leading_count(s.drop_first(), c)
    } else {
        0
    }
}

pub fn count_leading(cs: &[char], c: char) -> (r: usize)
    ensures
        r == leading_count(cs@, c),
        r <= cs@.len(),
        forall|k: int| 0 <= k < r ==> cs@[k] == c,
        r < cs@.len() ==> cs@[r as int] != c,
{
    let mut i: usize = 0;
    assert(cs@.skip(0) == cs@);
    while i < cs.len() && cs[i] == c
        invariant
            0 <= i <= cs@.len(),
            forall|k: int| 0 <= k < i ==> cs@[k] == c,
            leading_count(cs@, c) == i + leading_count(cs@.skip(i as int), c),
        decreases cs.len() - i,
    {
        assert(cs@.skip(i as int).drop_first() =~= cs@.skip(i + 1));
        i += 1;
    }
    i
}

/// `s` without any `c` (`str::replace(c, "")`).
pub open spec fn remove_char(s: Seq<char>, c: char) -> Seq<char>
    decreases s.len(),
{
    if s.len() == 0 {
        s
    } else if s.last() == c {
        remove_char(s.drop_last(), c)
    } else {
        remove_char(s.drop_last(), c).push(s.last())
    }
}

pub fn remove_char_all(cs: &[char], c: char) -> (r: Vec<char>)
    ensures
        r@ == remove_char(cs@, c),
{
    let mut out: Vec<char> = Vec::new();
    let mut i: usize = 0;
    while i < cs.len()
        invariant
            0 <= i <= cs@.len(),
            out@ == remove_char(cs@.take(i as int), c),
        decreases cs.len() - i,
    {
        assert(cs@.take(i + 1).drop_last() =~= cs@.take(i as int));
        if cs[i] != c {
            out.push(cs[i]);
        }
        i += 1;
    }
    assert(cs@.take(i as int) =~= cs@);
    out
}

/// Whether `c` separates the pieces of a tag list: `,` or a space.
pub open spec fn is_tag_separator(c: char) -> bool {
    c == ',' || c == ' '
}

/// The pieces of `s` between separators (`str::split([',', ' '])`),
/// empty pieces included.
pub open spec fn split_tag_list(s: Seq<char>) -> Seq<Seq<char>>
    decreases s.len(),
{
    if s.len() == 0 {
        seq![s]
    } else if is_tag_separator(s.last()) {
        split_tag_list(s.drop_last()).push(Seq::empty())
    } else {
        let prev = split_tag_list(s.drop_last());
        prev.update(prev.len() - 1, prev.last().push(s.last()))
    }
}

pub proof fn lemma_split_nonempty(s: Seq<char>)
    ensures
        split_tag_list(s).len() >= 1,
    decreases s.len(),
{
    if s.len() > 0 {
        lemma_split_nonempty(s.drop_last());
    }
}

/// The lines of a text (`str::lines`): pieces between `\n`, each without
/// a `\r` just before its `\n`; no empty piece after a final `\n`.
pub open spec fn lines(s: Seq<char>) -> Seq<Seq<char>>
    decreases s.len(),
{
    if s.len() == 0 {
        Seq::empty()
    } else {
        match find_char(s, '\n') {
            Some(i) => {
                proof {
                    lemma_find_char(s, '\n');
                }
                let line = s.take(i);
                let line = if line.len() > 0 && line.last() == '\r' {
                    line.drop_last()
                } else {
                    line
                };
                seq![line] + lines(s.skip(i + 1))
            },
            None => seq![s],
        }
    }
}

/// The texts of a list of character vectors.
pub open spec fn rows(v: Seq<Vec<char>>) -> Seq<Seq<char>> {
    v.map_values(|x: Vec<char>| x@)
}

pub fn lines_of(cs: &[char]) -> (r: Vec<Vec<char>>)
    ensures
        rows(r@) == lines(cs@),
{
    let mut out: Vec<Vec<char>> = Vec::new();
    let mut lo: usize = 0;
    assert(cs@.skip(0) =~= cs@);
    while lo < cs.len()
        invariant
            0 <= lo <= cs@.len(),
            lines(cs@) == rows(out@) + lines(cs@.skip(lo as int)),
        decreases cs.len() - lo,
    {
        let rest = Ghost(cs@.skip(lo as int));
        match find_char_from(cs, lo, '\n') {
            Some(i) => {
                let mut end = i;
                if end > lo && cs[end - 1] == '\r' {
                    end = end - 1;
                }
                let line = sub_chars(cs, lo, end);
                let ghost before = rows(out@);
                out.push(line);
                proof {
                    assert(rows(out@) =~= before.push(line@));
                    assert(rest@.take(i - lo) =~= cs@.subrange(lo as int, i as int));
                    assert(rest@.skip(i - lo + 1) =~= cs@.skip(i + 1));
                    if i > lo && cs@[i - 1] == '\r' {
                        assert(cs@.subrange(lo as int, i as int).drop_last() =~= cs@.subrange(lo as int, i - 1));
                    }
                    assert(lines(rest@) == seq![line@] + lines(cs@.skip(i + 1)));
                    assert(rows(out@) + lines(cs@.skip(i + 1)) =~= before + lines(rest@));
                }
                lo = i + 1;
            },
            None => {
                let line = sub_chars(cs, lo, cs.len());
                let ghost before = rows(out@);
                out.push(line);
                proof {
                    assert(rows(out@) =~= before.push(line@));
                    assert(rest@ =~= cs@.subrange(lo as int, cs@.len() as int));
                    assert(lines(rest@) == seq![rest@]);
                    assert(cs@.skip(cs@.len() as int) =~= Seq::<char>::empty());
                    assert(rows(out@) + lines(cs@.skip(cs@.len() as int)) =~= before + lines(rest@));
                }
                lo = cs.len();
            },
        }
    }
    assert(cs@.skip(lo as int) =~= Seq::<char>::empty());
    assert(rows(out@) + lines(cs@.skip(lo as int)) =~= rows(out@));
    out
}


/// The decimal digit for `d < 10`.
pub open spec fn digit_char(d: nat) -> char {
    (('0' as u32) + d) as char
}

/// Decimal notation of `n`, without leading zeros (`u64::to_string`).
pub open spec fn decimal(n: nat) -> Seq<char>
    decreases n,
{
    if n < 10 {
        seq![digit_char(n)]
    } else {
        decimal(n / 10).push(digit_char(n % 10))
    }
}

fn digit_of(d: u64) -> (r: char)
    requires
        d < 10,
    ensures
        r == digit_char(d as nat),
{
    let v: u8 = 48 + (d as u8);
    v as char
}

/// Decimal notation of `n`.
pub fn decimal_chars(n: u64) -> (r: Vec<char>)
    ensures
        r@ == decimal(n as nat),
    decreases n,
{
    if n < 10 {
        let v = vec![digit_of(n)];
        assert(v@ =~= seq![digit_char(n as nat)]);
        v
    } else {
        let mut v = decimal_chars(n / 10);
        v.push(digit_of(n % 10));
        v
    }
}

pub fn decimal_string(n: u64) -> (r: String)
    ensures
        r@ == decimal(n as nat),
{
    let v = decimal_chars(n);
    string_of(v.as_slice())
}

/// The lower-case hexadecimal digit for `d < 16`.
pub open spec fn hex_digit_char(d: nat) -> char {
    if d < 10 {
        digit_char(d)
    } else {
        (('a' as u32) + (d - 10)) as char
    }
}

/// Lower-case hexadecimal notation of `n`, without leading zeros.
pub open spec fn hex(n: nat) -> Seq<char>
    decreases n,
{
    if n < 16 {
        seq![hex_digit_char(n)]
    } else {
        hex(n / 16).push(hex_digit_char(n % 16))
    }
}

/// `n` in hexadecimal with at least four digits (`format!("{:04x}")`).
pub open spec fn hex4(n: nat) -> Seq<char> {
    let h = hex(n);
    if h.len() < 4 {
        Seq::new((4 - h.len()) as nat, |i: int| '0') + h
    } else {
        h
    }
}

fn hex_digit_of(d: u32) -> (r: char)
    requires
        d < 16,
    ensures
        r == hex_digit_char(d as nat),
{
    if d < 10 {
        let v: u8 = 48 + (d as u8);
        v as char
    } else {
        let v: u8 = 97 + ((d - 10) as u8);
        v as char
    }
}

fn hex_chars(n: u32) -> (r: Vec<char>)
    ensures
        r@ == hex(n as nat),
        r@.len() >= 1,
    decreases n,
{
    if n < 16 {
        let v = vec![hex_digit_of(n)];
        assert(v@ =~= seq![hex_digit_char(n as nat)]);
        v
    } else {
        let mut v = hex_chars(n / 16);
        v.push(hex_digit_of(n % 16));
        v
    }
}

/// `n` in hexadecimal, padded with zeros to at least four digits.
pub fn hex4_chars(n: u32) -> (r: Vec<char>)
    ensures
        r@ == hex4(n as nat),
{
    let h = hex_chars(n);
    if h.len() < 4 {
        let mut out: Vec<char> = Vec::new();
        let pad = 4 - h.len();
        let mut i: usize = 0;
        while i < pad
            invariant
                pad == 4 - h@.len(),
                0 <= i <= pad,
                out@ == Seq::new(i as nat, |k: int| '0'),
            decreases pad - i,
        {
            out.push('0');
            assert(out@ =~= Seq::new((i + 1) as nat, |k: int| '0'));
            i += 1;
        }
        let mut j: usize = 0;
        let ghost zeros = out@;
        while j < h.len()
            invariant
                0 <= j <= h@.len(),
                out@ == zeros + h@.take(j as int),
            decreases h.len() - j,
        {
            out.push(h[j]);
            assert(h@.take(j + 1) =~= h@.take(j as int).push(h@[j as int]));
            j += 1;
        }
        assert(h@.take(j as int) =~= h@);
        out
    } else {
        h
    }
}


/// Bytes in the UTF-8 encoding of `c`.
pub open spec fn char_width(c: char) -> nat {
    if (c as u32) <= 0x7F {
        1
    } else if (c as u32) <= 0x7FF {
        2
    } else if (c as u32) <= 0xFFFF {
        3
    } else {
        4
    }
}

/// Bytes in the UTF-8 encoding of a text (what `str::len` counts).
pub open spec fn blen(s: Seq<char>) -> nat {
    vstd::utf8::encode_utf8(s).len()
}

pub proof fn lemma_encode_append(a: Seq<char>, b: Seq<char>)
    ensures
        vstd::utf8::encode_utf8(a + b) == vstd::utf8::encode_utf8(a) + vstd::utf8::encode_utf8(b),
    decreases a.len(),
{
    if a.len() == 0 {
        assert(a + b =~= b);
        assert(vstd::utf8::encode_utf8(a) =~= Seq::<u8>::empty());
        assert(vstd::utf8::encode_utf8(a + b) =~= vstd::utf8::encode_utf8(a) + vstd::utf8::encode_utf8(b));
    } else {
        assert((a + b).drop_first() =~= a.drop_first() + b);
        assert((a + b)[0] == a[0]);
        lemma_encode_append(a.drop_first(), b);
        assert(vstd::utf8::encode_utf8(a + b) =~= vstd::utf8::encode_utf8(a) + vstd::utf8::encode_utf8(b));
    }
}

pub proof fn lemma_blen_single(c: char)
    ensures
        blen(seq![c]) == char_width(c),
{
    broadcast use vstd::utf8::char_is_scalar;
    assert(seq![c].drop_first() =~= Seq::<char>::empty());
    assert(vstd::utf8::is_scalar(c as u32));
    assert(vstd::utf8::encode_utf8(seq![c]) =~= vstd::utf8::encode_scalar(c as u32) + vstd::utf8::encode_utf8(Seq::<char>::empty()));
    assert(vstd::utf8::encode_utf8(Seq::<char>::empty()).len() == 0);
    let v = c as u32;
    if vstd::utf8::has_width_1_encoding(v) {
    } else if vstd::utf8::has_width_2_encoding(v) {
    } else if vstd::utf8::has_width_3_encoding(v) {
    } else {
    }
}

pub proof fn lemma_blen_append(a: Seq<char>, b: Seq<char>)
    ensures
        blen(a + b) == blen(a) + blen(b),
{
    lemma_encode_append(a, b);
}

pub proof fn lemma_blen_push(s: Seq<char>, c: char)
    ensures
        blen(s.push(c)) == blen(s) + char_width(c),
{
    assert(s.push(c) =~= s + seq![c]);
    lemma_blen_append(s, seq![c]);
    lemma_blen_single(c);
}

/// Byte offsets increase with the character count.
pub proof fn lemma_blen_take_mono(s: Seq<char>, i: int, j: int)
    requires
        0 <= i <= j <= s.len(),
    ensures
        blen(s.take(i)) + (j - i) <= blen(s.take(j)),
        blen(s.take(j)) <= blen(s),
    decreases j - i,
{
    if i < j {
        lemma_blen_take_mono(s, i, j - 1);
        assert(s.take(j) =~= s.take(j - 1).push(s[j - 1]));
        lemma_blen_push(s.take(j - 1), s[j - 1]);
    }
    assert(s =~= s.take(j) + s.skip(j));
    lemma_blen_append(s.take(j), s.skip(j));
}

pub fn char_byte_width(c: char) -> (r: usize)
    ensures
        r == char_width(c),
{
    let v = c as u32;
    if v <= 0x7F {
        1
    } else if v <= 0x7FF {
        2
    } else if v <= 0xFFFF {
        3
    } else {
        4
    }
}

/// The byte offset of every character position of `cs`, and of its end.
pub fn byte_offsets(cs: &[char]) -> (r: Vec<usize>)
    requires
        blen(cs@) <= usize::MAX,
    ensures
        r@.len() == cs@.len() + 1,
        forall|i: int| 0 <= i <= cs@.len() ==> #[trigger] r@[i] == blen(cs@.take(i)),
{
    let mut out: Vec<usize> = Vec::new();
    out.push(0);
    assert(blen(cs@.take(0)) == 0) by {
        assert(cs@.take(0) =~= Seq::<char>::empty());
    }
    let mut i: usize = 0;
    let mut total: usize = 0;
    while i < cs.len()
        invariant
            0 <= i <= cs@.len(),
            blen(cs@) <= usize::MAX,
            out@.len() == i + 1,
            total == blen(cs@.take(i as int)),
            forall|k: int| 0 <= k <= i ==> #[trigger] out@[k] == blen(cs@.take(k)),
        decreases cs.len() - i,
    {
        proof {
            assert(cs@.take(i + 1) =~= cs@.take(i as int).push(cs@[i as int]));
            lemma_blen_push(cs@.take(i as int), cs@[i as int]);
            lemma_blen_take_mono(cs@, i + 1, i + 1);
        }
        total = total + char_byte_width(cs[i]);
        out.push(total);
        i += 1;
    }
    out
}

/// Byte length of a string slice, as `blen` of its characters.
pub fn byte_len(s: &str) -> (r: usize)
    ensures
        r == blen(s@),
{
    let bytes = s.as_bytes();
    bytes.len()
}


/// Length of the run of non-white-space characters at the start of `s`.
pub open spec fn word_len(s: Seq<char>) -> nat
    decreases s.len(),
{
    if s.len() > 0 && !unicode_whitespace(s[0]) {
        1 + word_len(s.drop_first())
    } else {
        0
    }
}

pub proof fn lemma_word_len(s: Seq<char>)
    ensures
        word_len(s) <= s.len(),
        s.len() > 0 && !unicode_whitespace(s[0]) ==> word_len(s) >= 1,
    decreases s.len(),
{
    if s.len() > 0 && !unicode_whitespace(s[0]) {
        lemma_word_len(s.drop_first());
    }
}

/// The words of a text (`str::split_whitespace`).
pub open spec fn words(s: Seq<char>) -> Seq<Seq<char>>
    decreases s.len(),
{
    if s.len() == 0 {
        Seq::empty()
    } else if unicode_whitespace(s[0]) {
        words(s.drop_first())
    } else {
        let n = word_len(s);
        proof {
            lemma_word_len(s);
        }
        seq![s.take(n as int)] + words(s.skip(n as int))
    }
}

/// The words of `cs`.
pub fn split_words(cs: &[char]) -> (r: Vec<Vec<char>>)
    ensures
        rows(r@) == words(cs@),
{
    let mut out: Vec<Vec<char>> = Vec::new();
    let n = cs.len();
    let mut i: usize = 0;
    assert(cs@.skip(0) =~= cs@);
    while i < n
        invariant
            n == cs@.len(),
            0 <= i <= n,
            words(cs@) == rows(out@) + words(cs@.skip(i as int)),
        decreases n - i,
    {
        let ghost rest = cs@.skip(i as int);
        if char_is_whitespace(cs[i]) {
            assert(rest.drop_first() =~= cs@.skip(i + 1));
            i += 1;
        } else {
            let mut j = i + 1;
            assert(rest.drop_first() =~= cs@.skip(i + 1));
            while j < n && !char_is_whitespace(cs[j])
                invariant
                    i < j <= n,
                    n == cs@.len(),
                    rest == cs@.skip(i as int),
                    word_len(rest) == (j - i) + word_len(cs@.skip(j as int)),
                decreases n - j,
            {
                assert(cs@.skip(j as int).drop_first() =~= cs@.skip(j + 1));
                j += 1;
            }
            assert(word_len(cs@.skip(j as int)) == 0);
            assert(rest.take(j - i) =~= cs@.subrange(i as int, j as int));
            assert(rest.skip(j - i) =~= cs@.skip(j as int));
            let word = sub_chars(cs, i, j);
            let ghost before = rows(out@);
            out.push(word);
            assert(rows(out@) =~= before.push(word@));
            assert(words(rest) == seq![word@] + words(cs@.skip(j as int)));
            assert(rows(out@) + words(cs@.skip(j as int)) =~= before + words(rest));
            i = j;
        }
    }
    assert(cs@.skip(n as int) =~= Seq::<char>::empty());
    assert(rows(out@) + words(cs@.skip(n as int)) =~= rows(out@));
    out
}

/// The words of `s` as strings (`split_whitespace` collected).
pub fn split_whitespace_strings(s: &str) -> (r: Vec<String>)
    ensures
        r.deep_view() == words(s@),
{
    let cs = chars_of(s);
    let ws = split_words(cs.as_slice());
    let mut out: Vec<String> = Vec::new();
    let mut i: usize = 0;
    while i < ws.len()
        invariant
            0 <= i <= ws@.len(),
            out.deep_view() == rows(ws@).take(i as int),
        decreases ws.len() - i,
    {
        let ghost before = out.deep_view();
        let w = string_of(ws[i].as_slice());
        out.push(w);
        assert(out.deep_view() =~= before.push(w@));
        assert(rows(ws@).take(i + 1) =~= rows(ws@).take(i as int).push(ws@[i as int]@));
        i += 1;
    }
    assert(rows(ws@).take(i as int) =~= rows(ws@));
    out
}

} // verus!
