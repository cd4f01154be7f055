//! Splits text into search terms: runs of ASCII letters and digits become
//! one lower-cased term each, runs of other letters and digits (CJK text)
//! become their substrings of two to four characters.
use vstd::prelude::*;

use crate::text::{
    ascii_alnum, ascii_lower, ascii_lower_chars, ascii_lower_seq, char_is_alphanumeric, chars_of,
    is_ascii_alnum, string_of, sub_chars, unicode_alphanumeric,
};

verus! {

/// The class of a character: 0 for ASCII letters and digits, 1 for other
/// letters and digits, 2 for separators.
pub open spec fn char_class(c: char) -> int {
    if is_ascii_alnum(c) {
        0
    } else if unicode_alphanumeric(c) && (c as u32) > 127 {
        1
    } else {
        2
    }
}

fn class_of(c: char) -> (r: u8)
    ensures
        r as int == char_class(c),
{
    if ascii_alnum(c) {
        0
    } else if char_is_alphanumeric(c) && (c as u32) > 127 {
        1
    } else {
        2
    }
}

/// Length of the longest prefix of `s` made of characters of class `k`.
pub open spec fn run_len(s: Seq<char>, k: int) -> nat
    decreases s.len(),
{
    if s.len() > 0 && char_class(s[0]) == k {
        1 + run_len(s.drop_first(), k)
    } else {
        0
    }
}

pub proof fn lemma_run_len_bound(s: Seq<char>, k: int)
    ensures
        run_len(s, k) <= s.len(),
        s.len() > 0 && char_class(s[0]) == k ==> run_len(s, k) >= 1,
    decreases s.len(),
{
    if s.len() > 0 && char_class(s[0]) == k {
        lemma_run_len_bound(s.drop_first(), k);
    }
}

/// All substrings of `r` with `size` characters, by start position.
pub open spec fn grams_of_size(r: Seq<char>, size: int) -> Seq<Seq<char>> {
    Seq::new((r.len() - size + 1) as nat, |i: int| r.subrange(i, i + size))
}

/// Terms of a run of non-ASCII letters and digits: the run itself when it
/// has one character, otherwise its substrings of 2, 3 and 4 characters.
pub open spec fn wide_run_terms(r: Seq<char>) -> Seq<Seq<char>> {
    if r.len() == 1 {
        seq![r]
    } else {
        grams_of_size(r, 2) + (if r.len() >= 3 {
            grams_of_size(r, 3)
        } else {
            Seq::empty()
        }) + (if r.len() >= 4 {
            grams_of_size(r, 4)
        } else {
            Seq::empty()
        })
    }
}

/// Terms of one maximal run of characters of class `k`.
pub open spec fn run_terms(r: Seq<char>, k: int) -> Seq<Seq<char>> {
    if k == 0 {
        seq![ascii_lower_seq(r)]
    } else {
        wide_run_terms(r)
    }
}

/// The terms of a text, run by run from left to right.
pub open spec fn tokens(s: Seq<char>) -> Seq<Seq<char>>
    decreases s.len(),
{
    if s.len() == 0 {
        Seq::empty()
    } else if char_class(s[0]) == 2 {
        tokens(s.drop_first())
    } else {
        let k = char_class(s[0]);
        let n = run_len(s, k);
        proof {
            lemma_run_len_bound(s, k);
        }
        run_terms(s.take(n as int), k) + tokens(s.skip(n as int))
    }
}

/// A character that terms are made of: a lower-case ASCII letter or digit,
/// or a non-ASCII letter or digit.
pub open spec fn term_char(c: char) -> bool {
    ('0' <= c && c <= '9') || ('a' <= c && c <= 'z') || (unicode_alphanumeric(c) && (c as u32) > 127)
}

/// What every term is: not empty, and made of term characters.
pub open spec fn is_term(t: Seq<char>) -> bool {
    t.len() > 0 && forall|i: int| 0 <= i < t.len() ==> term_char(#[trigger] t[i])
}

proof fn lemma_run_class(s: Seq<char>, k: int)
    ensures
        forall|j: int| 0 <= j < run_len(s, k) ==> char_class(#[trigger] s[j]) == k,
    decreases s.len(),
{
    if s.len() > 0 && char_class(s[0]) == k {
        lemma_run_class(s.drop_first(), k);
        lemma_run_len_bound(s.drop_first(), k);
        assert forall|j: int| 0 <= j < run_len(s, k) implies char_class(#[trigger] s[j]) == k by {
            if j > 0 {
                assert(s[j] == s.drop_first()[j - 1]);
            }
        }
    }
}

proof fn lemma_grams_are_terms(r: Seq<char>, size: int)
    requires
        1 <= size <= r.len(),
        forall|j: int| 0 <= j < r.len() ==> char_class(#[trigger] r[j]) == 1,
    ensures
        forall|i: int| 0 <= i < grams_of_size(r, size).len() ==> is_term(#[trigger] grams_of_size(r, size)[i]),
{
    assert forall|i: int| 0 <= i < grams_of_size(r, size).len() implies is_term(#[trigger] grams_of_size(r, size)[i]) by {
        let g = grams_of_size(r, size)[i];
        assert(g == r.subrange(i, i + size));
        assert forall|m: int| 0 <= m < g.len() implies term_char(#[trigger] g[m]) by {
            assert(g[m] == r[i + m]);
            assert(char_class(r[i + m]) == 1);
        }
    }
}

/// Every term of a text is a term: not empty, and made of lower-case ASCII
/// letters and digits or of non-ASCII letters and digits.
pub proof fn lemma_tokens_are_terms(s: Seq<char>)
    ensures
        forall|i: int| 0 <= i < tokens(s).len() ==> is_term(#[trigger] tokens(s)[i]),
    decreases s.len(),
{
    if s.len() == 0 {
    } else if char_class(s[0]) == 2 {
        lemma_tokens_are_terms(s.drop_first());
        assert(tokens(s) == tokens(s.drop_first()));
    } else {
        let k = char_class(s[0]);
        let n = run_len(s, k);
        lemma_run_len_bound(s, k);
        lemma_run_class(s, k);
        lemma_tokens_are_terms(s.skip(n as int));
        let r = s.take(n as int);
        assert forall|j: int| 0 <= j < r.len() implies char_class(#[trigger] r[j]) == k by {
            assert(r[j] == s[j]);
        }
        let rt = run_terms(r, k);
        assert forall|i: int| 0 <= i < rt.len() implies is_term(#[trigger] rt[i]) by {
            if k == 0 {
                let t = ascii_lower_seq(r);
                assert(rt[i] == t);
                assert forall|m: int| 0 <= m < t.len() implies term_char(#[trigger] t[m]) by {
                    assert(char_class(r[m]) == 0);
                    assert(t[m] == ascii_lower(r[m]));
                }
            } else {
                if r.len() == 1 {
                    assert(rt[i] == r);
                    assert forall|m: int| 0 <= m < r.len() implies term_char(#[trigger] r[m]) by {
                        assert(char_class(r[m]) == 1);
                    }
                } else {
                    let g2 = grams_of_size(r, 2);
                    let g3 = if r.len() >= 3 { grams_of_size(r, 3) } else { Seq::empty() };
                    let g4 = if r.len() >= 4 { grams_of_size(r, 4) } else { Seq::empty() };
                    lemma_grams_are_terms(r, 2);
                    if r.len() >= 3 {
                        lemma_grams_are_terms(r, 3);
                    }
                    if r.len() >= 4 {
                        lemma_grams_are_terms(r, 4);
                    }
                    assert(rt == g2 + g3 + g4);
                    if i < g2.len() {
                        assert(rt[i] == g2[i]);
                    } else if i < g2.len() + g3.len() {
                        assert(rt[i] == g3[i - g2.len()]);
                    } else {
                        assert(rt[i] == g4[i - g2.len() - g3.len()]);
                    }
                }
            }
        }
        let rest = tokens(s.skip(n as int));
        assert(tokens(s) == rt + rest);
        assert forall|i: int| 0 <= i < tokens(s).len() implies is_term(#[trigger] tokens(s)[i]) by {
            if i < rt.len() {
                assert(tokens(s)[i] == rt[i]);
            } else {
                assert(tokens(s)[i] == rest[i - rt.len()]);
            }
        }
    }
}

/// Whether the character `c` stands in one of the terms `ts`.
pub open spec fn in_some_term(ts: Seq<Seq<char>>, c: char) -> bool {
    exists|k: int, m: int| 0 <= k < ts.len() && 0 <= m < ts[k].len() && #[trigger] ts[k][m] == c
}

/// No non-ASCII letter or digit is lost: each one of the text stands in
/// some term, a lone one between separators included.
pub proof fn lemma_wide_chars_kept(s: Seq<char>, i: int)
    requires
        0 <= i < s.len(),
        unicode_alphanumeric(s[i]),
        (s[i] as u32) > 127,
    ensures
        in_some_term(tokens(s), s[i]),
    decreases s.len(),
{
    assert(!is_ascii_alnum(s[i]));
    assert(char_class(s[i]) == 1);
    if char_class(s[0]) == 2 {
        assert(i > 0);
        lemma_wide_chars_kept(s.drop_first(), i - 1);
        assert(s.drop_first()[i - 1] == s[i]);
        assert(tokens(s) == tokens(s.drop_first()));
    } else {
        let k = char_class(s[0]);
        let n = run_len(s, k) as int;
        lemma_run_len_bound(s, k);
        lemma_run_class(s, k);
        let r = s.take(n);
        let rt = run_terms(r, k);
        let rest = tokens(s.skip(n));
        assert(tokens(s) == rt + rest);
        if i < n {
            assert(char_class(s[i]) == k);
            assert(k == 1);
            assert(r[i] == s[i]);
            if r.len() == 1 {
                assert(rt[0] == r);
                assert((rt + rest)[0] == rt[0]);
                assert(tokens(s)[0][i] == s[i]);
            } else {
                let g = if i <= r.len() - 2 { i } else { r.len() - 2 };
                let g2 = grams_of_size(r, 2);
                assert(g2[g] == r.subrange(g, g + 2));
                assert(rt[g] == g2[g]);
                assert((rt + rest)[g] == rt[g]);
                assert(tokens(s)[g][i - g] == s[i]);
            }
        } else {
            lemma_wide_chars_kept(s.skip(n), i - n);
            assert(s.skip(n)[i - n] == s[i]);
            let (k2, m2) = choose|k2: int, m2: int| 0 <= k2 < rest.len() && 0 <= m2 < rest[k2].len() && #[trigger] rest[k2][m2] == s[i];
            assert((rt + rest)[rt.len() + k2] == rest[k2]);
            assert(tokens(s)[rt.len() + k2][m2] == s[i]);
        }
    }
}

proof fn lemma_run_len_covers(s: Seq<char>, k: int, m: int)
    requires
        0 <= m <= s.len(),
        forall|j: int| 0 <= j < m ==> char_class(#[trigger] s[j]) == k,
    ensures
        run_len(s, k) >= m,
    decreases m,
{
    if m > 0 {
        assert(char_class(s[0]) == k);
        assert forall|j: int| 0 <= j < m - 1 implies char_class(#[trigger] s.drop_first()[j]) == k by {
            assert(s.drop_first()[j] == s[j + 1]);
        }
        lemma_run_len_covers(s.drop_first(), k, m - 1);
    }
}

proof fn lemma_run_len_stop(s: Seq<char>, k: int)
    ensures
        run_len(s, k) < s.len() ==> char_class(s[run_len(s, k) as int]) != k,
    decreases s.len(),
{
    if s.len() > 0 && char_class(s[0]) == k {
        lemma_run_len_stop(s.drop_first(), k);
        lemma_run_len_bound(s.drop_first(), k);
        if run_len(s, k) < s.len() {
            assert(s[run_len(s, k) as int] == s.drop_first()[run_len(s.drop_first(), k) as int]);
        }
    }
}

/// Every piece of two, three or four non-ASCII letters or digits in a row
/// is a term of the text.
pub proof fn lemma_wide_grams_kept(s: Seq<char>, i: int, size: int)
    requires
        2 <= size <= 4,
        0 <= i,
        i + size <= s.len(),
        forall|j: int| i <= j < i + size ==> unicode_alphanumeric(#[trigger] s[j]) && (s[j] as u32) > 127,
    ensures
        tokens(s).contains(s.subrange(i, i + size)),
    decreases s.len(),
{
    assert(char_class(s[i]) == 1);
    if char_class(s[0]) == 2 {
        assert(i > 0);
        let t = s.drop_first();
        assert forall|j: int| i - 1 <= j < i - 1 + size implies unicode_alphanumeric(#[trigger] t[j]) && (t[j] as u32) > 127 by {
            assert(t[j] == s[j + 1]);
        }
        lemma_wide_grams_kept(t, i - 1, size);
        assert(t.subrange(i - 1, i - 1 + size) =~= s.subrange(i, i + size));
        assert(tokens(s) == tokens(t));
    } else {
        let k = char_class(s[0]);
        let n = run_len(s, k) as int;
        lemma_run_len_bound(s, k);
        lemma_run_class(s, k);
        lemma_run_len_stop(s, k);
        let r = s.take(n);
        let rt = run_terms(r, k);
        let rest = tokens(s.skip(n));
        assert(tokens(s) == rt + rest);
        if i < n {
            assert(char_class(s[i]) == k);
            assert(k == 1);
            if n < i + size {
                assert(char_class(s[n]) == 1);
            }
            assert(i + size <= n);
            let piece = r.subrange(i, i + size);
            assert(piece =~= s.subrange(i, i + size));
            let g2 = grams_of_size(r, 2);
            let g3 = if r.len() >= 3 { grams_of_size(r, 3) } else { Seq::empty() };
            let g4 = if r.len() >= 4 { grams_of_size(r, 4) } else { Seq::empty() };
            assert(rt == g2 + g3 + g4);
            let x: int = if size == 2 { i } else if size == 3 { g2.len() + i } else { g2.len() + g3.len() + i };
            if size == 2 {
                assert(g2[i] == piece);
                assert(rt[x] == g2[i]);
            } else if size == 3 {
                assert(g3[i] == piece);
                assert(rt[x] == g3[i]);
            } else {
                assert(g4[i] == piece);
                assert(rt[x] == g4[i]);
            }
            assert(tokens(s)[x] == piece);
        } else {
            let t = s.skip(n);
            assert forall|j: int| i - n <= j < i - n + size implies unicode_alphanumeric(#[trigger] t[j]) && (t[j] as u32) > 127 by {
                assert(t[j] == s[j + n]);
            }
            lemma_wide_grams_kept(t, i - n, size);
            assert(t.subrange(i - n, i - n + size) =~= s.subrange(i, i + size));
            let y = choose|y: int| 0 <= y < rest.len() && rest[y] == s.subrange(i, i + size);
            assert(tokens(s)[rt.len() + y] == rest[y]);
        }
    }
}

/// Every whole ASCII word of the text (letters and digits with none just
/// before or after) is a term, in ASCII lower case.
pub proof fn lemma_ascii_words_kept(s: Seq<char>, i: int, j: int)
    requires
        0 <= i < j <= s.len(),
        forall|m: int| i <= m < j ==> is_ascii_alnum(#[trigger] s[m]),
        i == 0 || !is_ascii_alnum(s[i - 1]),
        j == s.len() || !is_ascii_alnum(s[j]),
    ensures
        tokens(s).contains(ascii_lower_seq(s.subrange(i, j))),
    decreases s.len(),
{
    assert(char_class(s[i]) == 0);
    if char_class(s[0]) == 2 {
        assert(i > 0);
        let t = s.drop_first();
        assert forall|m: int| i - 1 <= m < j - 1 implies is_ascii_alnum(#[trigger] t[m]) by {
            assert(t[m] == s[m + 1]);
        }
        if i - 1 > 0 {
            assert(t[i - 2] == s[i - 1]);
        }
        if j - 1 < t.len() {
            assert(t[j - 1] == s[j]);
        }
        lemma_ascii_words_kept(t, i - 1, j - 1);
        assert(t.subrange(i - 1, j - 1) =~= s.subrange(i, j));
        assert(tokens(s) == tokens(t));
    } else {
        let k = char_class(s[0]);
        let n = run_len(s, k) as int;
        lemma_run_len_bound(s, k);
        lemma_run_class(s, k);
        lemma_run_len_stop(s, k);
        let r = s.take(n);
        let rt = run_terms(r, k);
        let rest = tokens(s.skip(n));
        assert(tokens(s) == rt + rest);
        if i < n {
            assert(char_class(s[i]) == k);
            assert(k == 0);
            if i > 0 {
                assert(char_class(s[i - 1]) == 0);
            }
            assert(i == 0);
            assert forall|m: int| 0 <= m < j implies char_class(#[trigger] s[m]) == 0 by {
                assert(is_ascii_alnum(s[m]));
            }
            lemma_run_len_covers(s, 0, j);
            if n > j {
                assert(char_class(s[j]) == 0);
            }
            assert(n == j);
            assert(r =~= s.subrange(i, j));
            assert(rt[0] == ascii_lower_seq(r));
            assert(tokens(s)[0] == rt[0]);
        } else {
            let t = s.skip(n);
            assert forall|m: int| i - n <= m < j - n implies is_ascii_alnum(#[trigger] t[m]) by {
                assert(t[m] == s[m + n]);
            }
            if i - n > 0 {
                assert(t[i - n - 1] == s[i - 1]);
            }
            if j - n < t.len() {
                assert(t[j - n] == s[j]);
            }
            lemma_ascii_words_kept(t, i - n, j - n);
            assert(t.subrange(i - n, j - n) =~= s.subrange(i, j));
            let y = choose|y: int| 0 <= y < rest.len() && rest[y] == ascii_lower_seq(s.subrange(i, j));
            assert(tokens(s)[rt.len() + y] == rest[y]);
        }
    }
}

pub trait Tokenizer {
    fn tokenize(&self, text: &str) -> Vec<String>;
}

#[derive(Debug, Default, Clone, Copy)]
pub struct SimpleTokenizer;

impl Tokenizer for SimpleTokenizer {
    fn tokenize(&self, text: &str) -> (r: Vec<String>)
        ensures
            r.deep_view() == tokens(text@),
    {
        tokenize_chars(&chars_of(text))
    }
}

/// The terms of a text given as characters.
pub fn tokenize_chars(cs: &Vec<char>) -> (r: Vec<String>)
    ensures
        r.deep_view() == tokens(cs@),
{
    let mut out: Vec<String> = Vec::new();
    let n = cs.len();
    let mut i: usize = 0;
    assert(cs@.skip(0) == cs@);
    while i < n
        invariant
            n == cs@.len(),
            0 <= i <= n,
            tokens(cs@) == out.deep_view() + tokens(cs@.skip(i as int)),
        decreases n - i,
    {
        let rest = Ghost(cs@.skip(i as int));
        let k = class_of(cs[i]);
        if k == 2 {
            assert(rest@.drop_first() =~= cs@.skip(i + 1));
            i += 1;
        } else {
            let mut j = i + 1;
            assert(rest@.drop_first() =~= cs@.skip(i + 1));
            while j < n && class_of(cs[j]) == k
                invariant
                    i < j <= n,
                    n == cs@.len(),
                    rest@ == cs@.skip(i as int),
                    run_len(rest@, k as int) == (j - i) + run_len(cs@.skip(j as int), k as int),
                decreases n - j,
            {
                assert(cs@.skip(j as int).drop_first() =~= cs@.skip(j + 1));
                j += 1;
            }
            assert(run_len(cs@.skip(j as int), k as int) == 0);
            assert(rest@.take(j - i) =~= cs@.subrange(i as int, j as int));
            assert(rest@.skip(j - i) =~= cs@.skip(j as int));
            let mut run = sub_chars(cs, i, j);
            if k == 0 {
                let mut lowered = ascii_lower_chars(&run);
                flush_ascii(&mut lowered, &mut out);
            } else {
                flush_non_ascii(&mut run, &mut out);
            }
            assert(tokens(rest@) == run_terms(cs@.subrange(i as int, j as int), k as int) + tokens(cs@.skip(j as int)));
            i = j;
        }
    }
    assert(cs@.skip(n as int) =~= Seq::<char>::empty());
    out
}

/// Appends one term made of the characters of `cs`.
fn push_term(tokens: &mut Vec<String>, cs: &[char])
    ensures
        final(tokens).deep_view() == old(tokens).deep_view().push(cs@),
{
    let s = string_of(cs);
    let ghost before = tokens.deep_view();
    tokens.push(s);
    assert(tokens.deep_view() =~= before.push(cs@));
}

/// Emits a pending run of lower-cased ASCII characters as one term.
fn flush_ascii(current: &mut Vec<char>, tokens: &mut Vec<String>)
    ensures
        final(current)@.len() == 0,
        old(current)@.len() > 0 ==> final(tokens).deep_view() == old(tokens).deep_view().push(old(current)@),
        old(current)@.len() == 0 ==> final(tokens).deep_view() == old(tokens).deep_view(),
{
    if current.len() > 0 {
        push_term(tokens, current.as_slice());
    }
    current.clear();
}

/// Appends all substrings of `run` with `size` characters.
fn push_grams(run: &[char], size: usize, tokens: &mut Vec<String>)
    requires
        1 <= size <= run@.len(),
    ensures
        final(tokens).deep_view() == old(tokens).deep_view() + grams_of_size(run@, size as int),
{
    let ghost before = tokens.deep_view();
    let last = run.len() - size;
    let mut start: usize = 0;
    while start <= last
        invariant
            last == run@.len() - size,
            run@.len() <= usize::MAX,
            1 <= size <= run@.len(),
            0 <= start <= last + 1,
            tokens.deep_view() == before + grams_of_size(run@, size as int).take(start as int),
        decreases last + 1 - start,
    {
        let piece = sub_chars(run, start, start + size);
        push_term(tokens, piece.as_slice());
        assert(grams_of_size(run@, size as int).take(start + 1) =~= grams_of_size(run@, size as int).take(start as int).push(run@.subrange(start as int, start + size)));
        start += 1;
    }
    assert(grams_of_size(run@, size as int).take(start as int) =~= grams_of_size(run@, size as int));
}

/// Emits a pending run of non-ASCII characters: a single character stays
/// one term, longer runs give their substrings of 2 to 4 characters.
fn flush_non_ascii(current: &mut Vec<char>, tokens: &mut Vec<String>)
    ensures
        final(current)@.len() == 0,
        old(current)@.len() > 0 ==> final(tokens).deep_view() == old(tokens).deep_view() + wide_run_terms(old(current)@),
        old(current)@.len() == 0 ==> final(tokens).deep_view() == old(tokens).deep_view(),
{
    if current.len() == 0 {
        return;
    }
    let ghost before = tokens.deep_view();
    if current.len() == 1 {
        push_term(tokens, current.as_slice());
        current.clear();
        return;
    }
    push_grams(current.as_slice(), 2, tokens);
    if current.len() >= 3 {
        push_grams(current.as_slice(), 3, tokens);
    }
    if current.len() >= 4 {
        push_grams(current.as_slice(), 4, tokens);
    }
    assert(tokens.deep_view() =~= before + wide_run_terms(current@));
    current.clear();
}

} // verus!
