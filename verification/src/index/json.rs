//! The small JSON subset used by the cache: strings, unsigned integers,
//! arrays and objects. Values are written compactly and read back by a
//! recursive-descent reader.
use vstd::prelude::*;

use crate::error::{AppError, AppResult};
use crate::text::{
    blen, byte_len, char_byte_width, char_is_control, char_width, chars_eq, chars_of, decimal, decimal_chars,
    digit_char, hex, hex4, hex4_chars, hex_digit_char, is_control, lemma_blen_push,
    lemma_blen_take_mono, string_of,
};

verus! {

/// A JSON value. An object read from text holds each key once, as a map
/// does: a member whose key came before replaces that member's value, in
/// its place (`JsonParser::parse_complete` states this as `unique_keys`).
#[derive(Debug)]
pub enum JsonValue {
    String(String),
    Number(u64),
    Array(Vec<JsonValue>),
    Object(Vec<(String, JsonValue)>),
}

/// A JSON value as mathematics.
pub enum Json {
    Str(Seq<char>),
    Num(nat),
    Arr(Seq<Json>),
    Obj(Seq<(Seq<char>, Json)>),
}

pub open spec fn json_view(v: JsonValue) -> Json
    decreases v,
{
    match v {
        JsonValue::String(s) => Json::Str(s@),
        JsonValue::Number(n) => Json::Num(n as nat),
        JsonValue::Array(items) => Json::Arr(Seq::new(items@.len(), |i: int| if 0 <= i < items@.len() { json_view(items@[i]) } else { Json::Num(0) })),
        JsonValue::Object(members) => Json::Obj(Seq::new(members@.len(), |i: int| if 0 <= i < members@.len() { (members@[i].0@, json_view(members@[i].1)) } else { (Seq::empty(), Json::Num(0)) })),
    }
}

pub open spec fn json_views(v: Seq<JsonValue>) -> Seq<Json> {
    Seq::new(v.len(), |i: int| json_view(v[i]))
}

pub open spec fn member_views(v: Seq<(String, JsonValue)>) -> Seq<(Seq<char>, Json)> {
    Seq::new(v.len(), |i: int| (v[i].0@, json_view(v[i].1)))
}

pub proof fn lemma_json_view_array(items: Vec<JsonValue>)
    ensures
        json_view(JsonValue::Array(items)) == Json::Arr(json_views(items@)),
{
    let v = json_view(JsonValue::Array(items));
    assert(v is Arr);
    let x = v->Arr_0;
    assert(x.len() == items@.len());
    assert forall|i: int| 0 <= i < x.len() implies x[i] == json_view(items@[i]) by {}
    assert(x =~= json_views(items@));
}

pub proof fn lemma_json_view_object(members: Vec<(String, JsonValue)>)
    ensures
        json_view(JsonValue::Object(members)) == Json::Obj(member_views(members@)),
{
    let v = json_view(JsonValue::Object(members));
    assert(v is Obj);
    let x = v->Obj_0;
    assert(x.len() == members@.len());
    assert forall|i: int| 0 <= i < x.len() implies x[i] == (members@[i].0@, json_view(members@[i].1)) by {}
    assert(x =~= member_views(members@));
}

// ---------------------------------------------------------------------------
// Writing

/// The JSON escape of one character.
pub open spec fn escape_char(c: char) -> Seq<char> {
    if c == '"' {
        seq!['\\', '"']
    } else if c == '\\' {
        seq!['\\', '\\']
    } else if c == '\n' {
        seq!['\\', 'n']
    } else if c == '\r' {
        seq!['\\', 'r']
    } else if c == '\t' {
        seq!['\\', 't']
    } else if c == '\u{08}' {
        seq!['\\', 'b']
    } else if c == '\u{0c}' {
        seq!['\\', 'f']
    } else if is_control(c) {
        seq!['\\', 'u'] + hex4(c as nat)
    } else {
        seq![c]
    }
}

/// The JSON escape of a text, character by character.
pub open spec fn escape(s: Seq<char>) -> Seq<char>
    decreases s.len(),
{
    if s.len() == 0 {
        Seq::empty()
    } else {
        escape(s.drop_last()) + escape_char(s.last())
    }
}

fn push_all(out: &mut Vec<char>, cs: &[char])
    ensures
        final(out)@ == old(out)@ + cs@,
{
    let mut i: usize = 0;
    let ghost start = out@;
    while i < cs.len()
        invariant
            0 <= i <= cs@.len(),
            out@ == start + cs@.take(i as int),
        decreases cs.len() - i,
    {
        out.push(cs[i]);
        assert(cs@.take(i + 1) =~= cs@.take(i as int).push(cs@[i as int]));
        i += 1;
    }
    assert(cs@.take(i as int) =~= cs@);
}

fn push_escaped_char(out: &mut Vec<char>, c: char)
    ensures
        final(out)@ == old(out)@ + escape_char(c),
{
    let ghost start = out@;
    if c == '"' {
        out.push('\\');
        out.push('"');
    } else if c == '\\' {
        out.push('\\');
        out.push('\\');
    } else if c == '\n' {
        out.push('\\');
        out.push('n');
    } else if c == '\r' {
        out.push('\\');
        out.push('r');
    } else if c == '\t' {
        out.push('\\');
        out.push('t');
    } else if c == '\u{08}' {
        out.push('\\');
        out.push('b');
    } else if c == '\u{0c}' {
        out.push('\\');
        out.push('f');
    } else if char_is_control(c) {
        out.push('\\');
        out.push('u');
        let h = hex4_chars(c as u32);
        push_all(out, h.as_slice());
        assert(out@ =~= start + escape_char(c));
        return;
    } else {
        out.push(c);
    }
    assert(out@ =~= start + escape_char(c));
}

/// Appends the JSON escape of `cs`.
pub fn push_escaped(out: &mut Vec<char>, cs: &[char])
    ensures
        final(out)@ == old(out)@ + escape(cs@),
{
    let mut i: usize = 0;
    let ghost start = out@;
    while i < cs.len()
        invariant
            0 <= i <= cs@.len(),
            out@ == start + escape(cs@.take(i as int)),
        decreases cs.len() - i,
    {
        push_escaped_char(out, cs[i]);
        assert(cs@.take(i + 1).drop_last() =~= cs@.take(i as int));
        i += 1;
    }
    assert(cs@.take(i as int) =~= cs@);
}

/// A text as a JSON string literal.
pub open spec fn quoted(s: Seq<char>) -> Seq<char> {
    seq!['"'] + escape(s) + seq!['"']
}

/// The compact JSON text of a value: no white space, members and items
/// separated by `,`.
pub open spec fn json_text(v: Json) -> Seq<char>
    decreases v,
{
    match v {
        Json::Str(s) => quoted(s),
        Json::Num(n) => decimal(n),
        Json::Arr(items) => seq!['['] + items_text(items) + seq![']'],
        Json::Obj(members) => seq!['{'] + members_text(members) + seq!['}'],
    }
}

pub open spec fn items_text(items: Seq<Json>) -> Seq<char>
    decreases items,
{
    if items.len() == 0 {
        Seq::empty()
    } else if items.len() == 1 {
        json_text(items[0])
    } else {
        items_text(items.drop_last()) + seq![','] + json_text(items.last())
    }
}

pub open spec fn members_text(members: Seq<(Seq<char>, Json)>) -> Seq<char>
    decreases members,
{
    if members.len() == 0 {
        Seq::empty()
    } else if members.len() == 1 {
        quoted(members[0].0) + seq![':'] + json_text(members[0].1)
    } else {
        members_text(members.drop_last()) + seq![','] + quoted(members.last().0) + seq![':'] + json_text(members.last().1)
    }
}


// ---------------------------------------------------------------------------
// Reading

pub open spec fn is_json_space(c: char) -> bool {
    c == ' ' || c == '\n' || c == '\r' || c == '\t'
}

/// The first position at or after `p` that is not JSON white space.
pub open spec fn skip_ws(s: Seq<char>, p: int) -> int
    decreases s.len() - p,
{
    if 0 <= p < s.len() && is_json_space(s[p]) {
        skip_ws(s, p + 1)
    } else {
        p
    }
}

pub proof fn lemma_skip_ws(s: Seq<char>, p: int)
    ensures
        skip_ws(s, p) >= p,
        0 <= p <= s.len() ==> skip_ws(s, p) <= s.len(),
        0 <= p ==> (skip_ws(s, p) < s.len() ==> !is_json_space(s[skip_ws(s, p)])),
        forall|k: int| p <= k < skip_ws(s, p) ==> is_json_space(#[trigger] s[k]),
    decreases s.len() - p,
{
    if 0 <= p < s.len() && is_json_space(s[p]) {
        lemma_skip_ws(s, p + 1);
    }
}

pub open spec fn is_digit(c: char) -> bool {
    '0' <= c && c <= '9'
}

pub open spec fn digit_value(c: char) -> nat {
    ((c as u32) - ('0' as u32)) as nat
}

/// End of the run of digits starting at `p`.
pub open spec fn digit_run(s: Seq<char>, p: int) -> int
    decreases s.len() - p,
{
    if 0 <= p < s.len() && is_digit(s[p]) {
        digit_run(s, p + 1)
    } else {
        p
    }
}

/// The number written by a run of decimal digits.
pub open spec fn digits_value(d: Seq<char>) -> nat
    decreases d.len(),
{
    if d.len() == 0 {
        0
    } else {
        digits_value(d.drop_last()) * 10 + digit_value(d.last())
    }
}

/// Byte offset of character position `p`, as messages give positions.
pub open spec fn byte_at(s: Seq<char>, p: int) -> nat {
    blen(s.take(p))
}

/// The first byte of the UTF-8 encoding of `c`, read as a character: what a
/// message shows for the byte at a position.
pub open spec fn lead_char(c: char) -> char {
    let v = c as u32;
    if v < 0x80 {
        c
    } else if v < 0x800 {
        ((0xC0 + v / 64) as u8) as char
    } else if v < 0x10000 {
        ((0xE0 + v / 4096) as u8) as char
    } else {
        ((0xF0 + (v / 262144) % 8) as u8) as char
    }
}

/// The message for a byte that no value starts with.
pub open spec fn unexpected_message(s: Seq<char>, q: int) -> Seq<char> {
    "unexpected JSON byte `"@ + seq![lead_char(s[q])] + "` at "@ + decimal(byte_at(s, q))
}

/// The message when `c` was expected at `p`.
pub open spec fn expected_message(c: char, s: Seq<char>, p: int) -> Seq<char> {
    if 0 <= p < s.len() {
        "expected `"@ + seq![lead_char(c)] + "`, got `"@ + seq![lead_char(s[p])] + "` at "@ + decimal(byte_at(s, p))
    } else {
        "expected `"@ + seq![lead_char(c)] + "`, got end of input"@
    }
}

/// The message for something other than white space after a value.
pub open spec fn trailing_message(s: Seq<char>, q: int) -> Seq<char> {
    "unexpected trailing JSON at "@ + decimal(byte_at(s, q))
}

/// A number at `p` (which holds a digit): its value and the position after
/// it, or the message when it does not fit in `u64`.
pub open spec fn number_at(s: Seq<char>, p: int) -> Result<(nat, int), Seq<char>> {
    let e = digit_run(s, p);
    let v = digits_value(s.subrange(p, e));
    if v <= u64::MAX {
        Ok((v, e))
    } else {
        Err("invalid number `"@ + s.subrange(p, e) + "`"@)
    }
}

pub open spec fn is_hex(c: char) -> bool {
    is_digit(c) || ('a' <= c && c <= 'f') || ('A' <= c && c <= 'F')
}

pub open spec fn hex_value(c: char) -> nat {
    if is_digit(c) {
        digit_value(c)
    } else if 'a' <= c && c <= 'f' {
        ((c as u32) - ('a' as u32) + 10) as nat
    } else {
        ((c as u32) - ('A' as u32) + 10) as nat
    }
}

pub open spec fn hex_digits_value(d: Seq<char>) -> nat
    decreases d.len(),
{
    if d.len() == 0 {
        0
    } else {
        hex_digits_value(d.drop_last()) * 16 + hex_value(d.last())
    }
}

/// Whether `v` is the code of a character (not a surrogate).
pub open spec fn is_scalar_value(v: nat) -> bool {
    v < 0xD800 || (0xDFFF < v && v <= 0x10FFFF)
}

/// Whole characters from `k` on until at least four bytes are covered (or
/// the text ends): the position reached and the bytes covered.
pub open spec fn escape_span(s: Seq<char>, k: int, bytes: nat) -> (int, nat)
    decreases s.len() - k,
{
    if 0 <= k < s.len() && bytes < 4 {
        escape_span(s, k + 1, bytes + char_width(s[k]))
    } else {
        (k, bytes)
    }
}

/// The message for a `\u` escape at `p` that is not four hexadecimal digits,
/// judged, as bytes, on the next four bytes.
pub open spec fn bad_escape_message(s: Seq<char>, p: int) -> Seq<char> {
    let (k, bytes) = escape_span(s, p, 0);
    if bytes < 4 {
        "short unicode escape"@
    } else if bytes > 4 {
        "invalid unicode escape"@
    } else {
        "invalid unicode escape `"@ + s.subrange(p, k) + "`"@
    }
}

/// The four hexadecimal digits of a `\u` escape at `p` (`u32::from_str_radix`,
/// which also takes a leading `+`): the character and the position after,
/// or why they are refused.
pub open spec fn unicode_escape(s: Seq<char>, p: int) -> Result<(char, int), Seq<char>> {
    if 0 <= p && p + 4 <= s.len() && (is_hex(s[p]) || s[p] == '+') && is_hex(s[p + 1]) && is_hex(s[p + 2]) && is_hex(s[p + 3]) {
        let v = if s[p] == '+' {
            hex_digits_value(s.subrange(p + 1, p + 4))
        } else {
            hex_digits_value(s.subrange(p, p + 4))
        };
        if is_scalar_value(v) {
            Ok((v as char, p + 4))
        } else {
            Err("invalid codepoint "@ + decimal(v))
        }
    } else {
        Err(bad_escape_message(s, p))
    }
}

/// The character that a one-letter escape stands for.
pub open spec fn simple_escape(e: char) -> Option<char> {
    if e == '"' {
        Some('"')
    } else if e == '\\' {
        Some('\\')
    } else if e == '/' {
        Some('/')
    } else if e == 'b' {
        Some('\u{08}')
    } else if e == 'f' {
        Some('\u{0c}')
    } else if e == 'n' {
        Some('\n')
    } else if e == 'r' {
        Some('\r')
    } else if e == 't' {
        Some('\t')
    } else {
        None
    }
}

/// The message for a one-letter escape that JSON does not have.
pub open spec fn unsupported_escape_message(e: char) -> Seq<char> {
    "unsupported escape `"@ + seq!['\\', lead_char(e)] + "`"@
}

/// The rest of a string literal from `p` (just after the opening quote or
/// after some of its characters), `acc` being what was read so far: the
/// text and the position after the closing quote, or why it cannot be read.
pub open spec fn string_at(s: Seq<char>, p: int, acc: Seq<char>) -> Result<(Seq<char>, int), Seq<char>>
    decreases s.len() - p,
{
    if !(0 <= p < s.len()) {
        Err("unterminated string"@)
    } else if s[p] == '"' {
        Ok((acc, p + 1))
    } else if s[p] == '\\' {
        if p + 1 >= s.len() {
            Err("unterminated escape"@)
        } else if s[p + 1] == 'u' {
            match unicode_escape(s, p + 2) {
                Ok((c, q)) => string_at(s, q, acc.push(c)),
                Err(m) => Err(m),
            }
        } else {
            match simple_escape(s[p + 1]) {
                Some(c) => string_at(s, p + 2, acc.push(c)),
                None => Err(unsupported_escape_message(s[p + 1])),
            }
        }
    } else {
        string_at(s, p + 1, acc.push(s[p]))
    }
}

pub proof fn lemma_string_at_progress(s: Seq<char>, p: int, acc: Seq<char>)
    ensures
        string_at(s, p, acc) matches Ok((t, e)) ==> p < e <= s.len(),
    decreases s.len() - p,
{
    if 0 <= p < s.len() && s[p] != '"' {
        if s[p] == '\\' {
            if p + 1 < s.len() {
                if s[p + 1] == 'u' {
                    match unicode_escape(s, p + 2) {
                        Ok((c, q)) => lemma_string_at_progress(s, q, acc.push(c)),
                        Err(_) => {},
                    }
                } else {
                    match simple_escape(s[p + 1]) {
                        Some(c) => lemma_string_at_progress(s, p + 2, acc.push(c)),
                        None => {},
                    }
                }
            }
        } else {
            lemma_string_at_progress(s, p + 1, acc.push(s[p]));
        }
    }
}

/// A value starting at or after `p` (after white space): the value and
/// the position just after it, or why it cannot be read.
pub open spec fn value_at(s: Seq<char>, p: int) -> Result<(Json, int), Seq<char>>
    decreases s.len() - p, 0int,
{
    let q = skip_ws(s, p);
    proof {
        lemma_skip_ws(s, p);
    }
    if !(0 <= q < s.len()) {
        Err("unexpected end of JSON"@)
    } else if s[q] == '"' {
        match string_at(s, q + 1, Seq::empty()) {
            Ok((t, e)) => Ok((Json::Str(t), e)),
            Err(m) => Err(m),
        }
    } else if is_digit(s[q]) {
        match number_at(s, q) {
            Ok((n, e)) => Ok((Json::Num(n), e)),
            Err(m) => Err(m),
        }
    } else if s[q] == '[' {
        match items_at(s, q + 1, Seq::empty()) {
            Ok((xs, e)) => Ok((Json::Arr(xs), e)),
            Err(m) => Err(m),
        }
    } else if s[q] == '{' {
        match members_at(s, q + 1, Seq::empty()) {
            Ok((ms, e)) => Ok((Json::Obj(ms), e)),
            Err(m) => Err(m),
        }
    } else {
        Err(unexpected_message(s, q))
    }
}

/// The rest of an array from `p` (after `[` or after a `,`): its items and
/// the position after the closing `]`, or why it cannot be read.
pub open spec fn items_at(s: Seq<char>, p: int, acc: Seq<Json>) -> Result<(Seq<Json>, int), Seq<char>>
    decreases s.len() - p, 1int,
{
    let q = skip_ws(s, p);
    proof {
        lemma_skip_ws(s, p);
    }
    if !(0 <= p && q <= s.len()) {
        Err(Seq::empty())
    } else if q < s.len() && s[q] == ']' {
        Ok((acc, q + 1))
    } else {
        match value_at(s, q) {
            Ok((v, q2)) => if q2 <= q {
                Err(Seq::empty())
            } else {
                let r = skip_ws(s, q2);
                proof {
                    lemma_skip_ws(s, q2);
                }
                if 0 <= r < s.len() && s[r] == ']' {
                    Ok((acc.push(v), r + 1))
                } else if 0 <= r < s.len() && s[r] == ',' {
                    items_at(s, r + 1, acc.push(v))
                } else {
                    Err(expected_message(',', s, r))
                }
            },
            Err(m) => Err(m),
        }
    }
}

/// Position of the first member with key `k`.
pub open spec fn key_pos(ms: Seq<(Seq<char>, Json)>, k: Seq<char>) -> Option<int>
    decreases ms.len(),
{
    if ms.len() == 0 {
        None
    } else if ms[0].0 == k {
        Some(0)
    } else {
        match key_pos(ms.drop_first(), k) {
            Some(i) => Some(i + 1),
            None => None,
        }
    }
}

pub proof fn lemma_key_pos(ms: Seq<(Seq<char>, Json)>, k: Seq<char>)
    ensures
        key_pos(ms, k) matches Some(i) ==> 0 <= i < ms.len() && ms[i].0 == k && forall|j: int| 0 <= j < i ==> (#[trigger] ms[j]).0 != k,
        key_pos(ms, k) is None ==> forall|j: int| 0 <= j < ms.len() ==> (#[trigger] ms[j]).0 != k,
    decreases ms.len(),
{
    if ms.len() > 0 && ms[0].0 != k {
        lemma_key_pos(ms.drop_first(), k);
        assert forall|j: int| 1 <= j < ms.len() implies ms[j] == ms.drop_first()[j - 1] by {}
    }
}

/// A member added as a map adds it (`BTreeMap::insert`): a key already
/// there keeps its place and takes the new value; a new key comes last.
pub open spec fn obj_insert(ms: Seq<(Seq<char>, Json)>, k: Seq<char>, v: Json) -> Seq<(Seq<char>, Json)> {
    match key_pos(ms, k) {
        Some(i) => ms.update(i, (k, v)),
        None => ms.push((k, v)),
    }
}

/// No key occurs twice.
pub open spec fn keys_distinct(ms: Seq<(Seq<char>, Json)>) -> bool {
    forall|i: int, j: int| 0 <= i < j < ms.len() ==> (#[trigger] ms[i]).0 != (#[trigger] ms[j]).0
}

pub proof fn lemma_obj_insert_distinct(ms: Seq<(Seq<char>, Json)>, k: Seq<char>, v: Json)
    requires
        keys_distinct(ms),
    ensures
        keys_distinct(obj_insert(ms, k, v)),
{
    lemma_key_pos(ms, k);
    let r = obj_insert(ms, k, v);
    match key_pos(ms, k) {
        Some(i) => {
            assert forall|a: int, b: int| 0 <= a < b < r.len() implies (#[trigger] r[a]).0 != (#[trigger] r[b]).0 by {
                assert(r[a].0 == ms[a].0);
                assert(r[b].0 == ms[b].0);
            }
        },
        None => {
            assert forall|a: int, b: int| 0 <= a < b < r.len() implies (#[trigger] r[a]).0 != (#[trigger] r[b]).0 by {
                assert(r[a] == ms[a]);
                if b < ms.len() {
                    assert(r[b] == ms[b]);
                }
            }
        },
    }
}

/// Every object of a value has distinct keys.
pub open spec fn unique_keys(v: Json) -> bool
    decreases v,
{
    match v {
        Json::Arr(xs) => forall|i: int| 0 <= i < xs.len() ==> unique_keys(#[trigger] xs[i]),
        Json::Obj(ms) => keys_distinct(ms) && forall|i: int| 0 <= i < ms.len() ==> unique_keys(#[trigger] ms[i].1),
        _ => true,
    }
}

/// The rest of an object from `p` (after `{` or after a `,`): its members
/// and the position after the closing `}`, or why it cannot be read.
pub open spec fn members_at(s: Seq<char>, p: int, acc: Seq<(Seq<char>, Json)>) -> Result<(Seq<(Seq<char>, Json)>, int), Seq<char>>
    decreases s.len() - p, 1int,
{
    let q = skip_ws(s, p);
    proof {
        lemma_skip_ws(s, p);
    }
    if !(0 <= p && q <= s.len()) {
        Err(Seq::empty())
    } else if q < s.len() && s[q] == '}' {
        Ok((acc, q + 1))
    } else if q < s.len() && s[q] == '"' {
        match string_at(s, q + 1, Seq::empty()) {
            Ok((k, q2)) => {
                proof {
                    lemma_string_at_progress(s, q + 1, Seq::empty());
                }
                let r = skip_ws(s, q2);
                proof {
                    lemma_skip_ws(s, q2);
                }
                if 0 <= r < s.len() && s[r] == ':' {
                    match value_at(s, r + 1) {
                        Ok((v, q3)) => if q3 <= r + 1 {
                            Err(Seq::empty())
                        } else {
                            let t = skip_ws(s, q3);
                            proof {
                                lemma_skip_ws(s, q3);
                            }
                            if 0 <= t < s.len() && s[t] == '}' {
                                Ok((obj_insert(acc, k, v), t + 1))
                            } else if 0 <= t < s.len() && s[t] == ',' {
                                members_at(s, t + 1, obj_insert(acc, k, v))
                            } else {
                                Err(expected_message(',', s, t))
                            }
                        },
                        Err(m) => Err(m),
                    }
                } else {
                    Err(expected_message(':', s, r))
                }
            },
            Err(m) => Err(m),
        }
    } else {
        Err(expected_message('"', s, q))
    }
}

/// A whole text holding one value and nothing else but white space, or why
/// it is not one.
pub open spec fn complete_value(s: Seq<char>) -> Result<Json, Seq<char>> {
    match value_at(s, 0) {
        Ok((v, e)) => if skip_ws(s, e) == s.len() {
            Ok(v)
        } else {
            Err(trailing_message(s, skip_ws(s, e)))
        },
        Err(m) => Err(m),
    }
}

/// `char::from_u32` (std): the character with code `v`, unless `v` is a
/// surrogate or above U+10FFFF.
#[verifier::external_body]
fn char_from_u32(v: u32) -> (r: Option<char>)
    ensures
        is_scalar_value(v as nat) ==> r == Some(v as char),
        !is_scalar_value(v as nat) ==> r is None,
{
    char::from_u32(v)
}

/// Byte offset of character `upto` in the UTF-8 encoding of `cs` (messages
/// count bytes).
fn byte_offset(cs: &[char], upto: usize) -> (r: usize)
    requires
        upto <= cs@.len(),
        blen(cs@) <= usize::MAX,
    ensures
        r == blen(cs@.take(upto as int)),
{
    let mut total: usize = 0;
    let mut i: usize = 0;
    assert(blen(cs@.take(0)) == 0) by {
        assert(cs@.take(0) =~= Seq::<char>::empty());
    }
    while i < upto
        invariant
            0 <= i <= upto <= cs@.len(),
            blen(cs@) <= usize::MAX,
            total == blen(cs@.take(i as int)),
        decreases upto - i,
    {
        let w = char_byte_width(cs[i]);
        proof {
            assert(cs@.take(i + 1) =~= cs@.take(i as int).push(cs@[i as int]));
            lemma_blen_push(cs@.take(i as int), cs@[i as int]);
            lemma_blen_take_mono(cs@, i + 1, cs@.len() as int);
        }
        total = total + w;
        i += 1;
    }
    total
}

/// The first byte of the UTF-8 encoding of `c`, read as a character.
fn leading_byte_char(c: char) -> (r: char)
    ensures
        r == lead_char(c),
{
    let v = c as u32;
    if v < 0x80 {
        c
    } else if v < 0x800 {
        let b: u8 = (0xC0 + v / 64) as u8;
        b as char
    } else if v < 0x10000 {
        let b: u8 = (0xE0 + v / 4096) as u8;
        b as char
    } else {
        let b: u8 = (0xF0 + (v / 262144) % 8) as u8;
        b as char
    }
}

/// Appends the characters of `t`.
fn push_text(out: &mut Vec<char>, t: &str)
    ensures
        final(out)@ == old(out)@ + t@,
{
    let cs = chars_of(t);
    push_all(out, cs.as_slice());
}

/// A cache error with the message `text`.
pub(crate) fn cache_error(text: &str) -> (r: AppError)
    ensures
        r matches AppError::Cache(m) && m@ == text@,
{
    AppError::Cache(text.to_owned())
}

/// A cache error with the message `head`, `middle`, `tail` one after the other.
pub(crate) fn cache_error3(head: &str, middle: &[char], tail: &str) -> (r: AppError)
    ensures
        r matches AppError::Cache(m) && m@ == head@ + middle@ + tail@,
{
    let mut m: String = head.to_owned();
    let mid = string_of(middle);
    m.append(mid.as_str());
    m.append(tail);
    AppError::Cache(m)
}

/// A cache error with the message `head` followed by `rest`.
pub(crate) fn cache_error_then(head: &str, rest: &[char]) -> (r: AppError)
    ensures
        r matches AppError::Cache(m) && m@ == head@ + rest@,
{
    let mut m: String = head.to_owned();
    let tail = string_of(rest);
    m.append(tail.as_str());
    AppError::Cache(m)
}

fn is_hex_char(c: char) -> (r: bool)
    ensures
        r == is_hex(c),
{
    ('0' <= c && c <= '9') || ('a' <= c && c <= 'f') || ('A' <= c && c <= 'F')
}

fn hex_char_value(c: char) -> (r: u32)
    requires
        is_hex(c),
    ensures
        r == hex_value(c),
        r < 16,
{
    if '0' <= c && c <= '9' {
        (c as u32) - ('0' as u32)
    } else if 'a' <= c && c <= 'f' {
        (c as u32) - ('a' as u32) + 10
    } else {
        (c as u32) - ('A' as u32) + 10
    }
}

/// Position of the first member of `object` with key `key`.
fn find_key(object: &Vec<(String, JsonValue)>, key: &String) -> (r: Option<usize>)
    ensures
        match key_pos(member_views(object@), key@) {
            Some(i) => r == Some(i as usize),
            None => r is None,
        },
{
    let ghost ms = member_views(object@);
    proof {
        lemma_key_pos(ms, key@);
    }
    let kc = chars_of(key.as_str());
    let mut i: usize = 0;
    while i < object.len()
        invariant
            0 <= i <= object@.len(),
            ms == member_views(object@),
            kc@ == key@,
            forall|j: int| 0 <= j < i ==> (#[trigger] ms[j]).0 != key@,
            key_pos(ms, key@) matches Some(t) ==> t >= i && ms[t].0 == key@ && forall|j: int| 0 <= j < t ==> (#[trigger] ms[j]).0 != key@,
            key_pos(ms, key@) is None ==> forall|j: int| 0 <= j < ms.len() ==> (#[trigger] ms[j]).0 != key@,
        decreases object.len() - i,
    {
        let name = chars_of(object[i].0.as_str());
        assert(ms[i as int].0 == object@[i as int].0@);
        if chars_eq(name.as_slice(), kc.as_slice()) {
            return Some(i);
        }
        i += 1;
    }
    None
}

/// Adds a member as a map does: a key already there takes the new value.
fn insert_member(object: &mut Vec<(String, JsonValue)>, key: String, value: JsonValue)
    ensures
        member_views(final(object)@) == obj_insert(member_views(old(object)@), key@, json_view(value)),
{
    let ghost before = object@;
    proof {
        lemma_key_pos(member_views(object@), key@);
    }
    match find_key(object, &key) {
        Some(i) => {
            let ghost kv = key@;
            object.set(i, (key, value));
            assert(member_views(object@) =~= member_views(before).update(i as int, (kv, json_view(value))));
        },
        None => {
            let ghost kv = key@;
            object.push((key, value));
            assert(member_views(object@) =~= member_views(before).push((kv, json_view(value))));
        },
    }
}

/// A reader over the characters of one JSON text.
pub struct JsonParser {
    pub input: Vec<char>,
    pub position: usize,
}

impl JsonParser {
    pub fn new(input: &str) -> (r: Self)
        ensures
            r.input@ == input@,
            r.position == 0,
            blen(r.input@) <= usize::MAX,
    {
        let bytes = byte_len(input);
        assert(blen(input@) == bytes);
        JsonParser { input: chars_of(input), position: 0 }
    }

    fn peek(&self) -> (r: Option<char>)
        ensures
            self.position < self.input@.len() ==> r == Some(self.input@[self.position as int]),
            self.position >= self.input@.len() ==> r is None,
    {
        if self.position < self.input.len() {
            Some(self.input[self.position])
        } else {
            None
        }
    }

    fn next(&mut self) -> (r: Option<char>)
        requires
            old(self).position <= old(self).input@.len(),
        ensures
            final(self).input@ == old(self).input@,
            old(self).position < old(self).input@.len() ==> r == Some(old(self).input@[old(self).position as int]) && final(self).position == old(self).position + 1,
            old(self).position >= old(self).input@.len() ==> r is None && final(self).position == old(self).position,
    {
        let byte = self.peek();
        if byte.is_some() {
            assert(self.position < self.input.len());
            self.position += 1;
        }
        byte
    }

    fn consume_if(&mut self, expected: char) -> (r: bool)
        requires
            old(self).position <= old(self).input@.len(),
        ensures
            final(self).input@ == old(self).input@,
            r == (old(self).position < old(self).input@.len() && old(self).input@[old(self).position as int] == expected),
            r ==> final(self).position == old(self).position + 1,
            !r ==> final(self).position == old(self).position,
    {
        if self.peek() == Some(expected) {
            assert(self.position < self.input.len());
            self.position += 1;
            true
        } else {
            false
        }
    }

    fn expect_byte(&mut self, expected: char) -> (r: AppResult<()>)
        requires
            old(self).position <= old(self).input@.len(),
            blen(old(self).input@) <= usize::MAX,
        ensures
            final(self).input@ == old(self).input@,
            final(self).position <= final(self).input@.len(),
            r is Ok == (old(self).position < old(self).input@.len() && old(self).input@[old(self).position as int] == expected),
            r is Ok ==> final(self).position == old(self).position + 1,
            !(r is Ok) ==> (r matches Err(AppError::Cache(m)) && m@ == expected_message(expected, old(self).input@, old(self).position as int)),
    {
        let ghost s = self.input@;
        let at = self.position;
        let mut message: Vec<char> = Vec::new();
        push_text(&mut message, "expected `");
        message.push(leading_byte_char(expected));
        match self.next() {
            Some(actual) => {
                if actual == expected {
                    Ok(())
                } else {
                    let offset = byte_offset(self.input.as_slice(), at);
                    push_text(&mut message, "`, got `");
                    message.push(leading_byte_char(actual));
                    push_text(&mut message, "` at ");
                    let digits = decimal_chars(offset as u64);
                    push_all(&mut message, digits.as_slice());
                    assert(message@ =~= expected_message(expected, s, at as int));
                    Err(AppError::Cache(string_of(message.as_slice())))
                }
            },
            None => {
                push_text(&mut message, "`, got end of input");
                assert(message@ =~= expected_message(expected, s, at as int));
                Err(AppError::Cache(string_of(message.as_slice())))
            },
        }
    }

    fn skip_whitespace(&mut self)
        requires
            old(self).position <= old(self).input@.len(),
        ensures
            final(self).input@ == old(self).input@,
            final(self).position == skip_ws(old(self).input@, old(self).position as int),
            final(self).position <= final(self).input@.len(),
    {
        let ghost s = self.input@;
        let ghost start = self.position as int;
        while self.position < self.input.len() && (self.input[self.position] == ' ' || self.input[self.position] == '\n' || self.input[self.position] == '\r' || self.input[self.position] == '\t')
            invariant
                self.input@ == s,
                start <= self.position <= s.len(),
                skip_ws(s, start) == skip_ws(s, self.position as int),
            decreases s.len() - self.position,
        {
            self.position += 1;
        }
    }

    fn parse_number(&mut self) -> (r: AppResult<u64>)
        requires
            old(self).position < old(self).input@.len(),
            is_digit(old(self).input@[old(self).position as int]),
        ensures
            final(self).input@ == old(self).input@,
            final(self).position <= final(self).input@.len(),
            match number_at(old(self).input@, old(self).position as int) {
                Ok((v, e)) => r matches Ok(n) && n == v && final(self).position == e,
                Err(m) => r matches Err(AppError::Cache(x)) && x@ == m,
            },
            r is Ok ==> final(self).position > old(self).position,
    {
        let ghost s = self.input@;
        let start = self.position;
        let mut value: u64 = 0;
        let mut overflow = false;
        while self.position < self.input.len() && '0' <= self.input[self.position] && self.input[self.position] <= '9'
            invariant
                self.input@ == s,
                start <= self.position <= s.len(),
                digit_run(s, start as int) == digit_run(s, self.position as int),
                !overflow ==> value == digits_value(s.subrange(start as int, self.position as int)),
                overflow ==> digits_value(s.subrange(start as int, self.position as int)) > u64::MAX,
            decreases s.len() - self.position,
        {
            let d = (self.input[self.position] as u32 - '0' as u32) as u64;
            let ghost prefix = s.subrange(start as int, self.position as int);
            let ghost next = s.subrange(start as int, self.position + 1);
            assert(next.drop_last() =~= prefix);
            assert(digits_value(next) == digits_value(prefix) * 10 + d);
            if !overflow {
                if value > (u64::MAX - d) / 10 {
                    overflow = true;
                } else {
                    value = value * 10 + d;
                }
            } else {
                assert(digits_value(next) >= digits_value(prefix)) by (nonlinear_arith)
                    requires digits_value(next) == digits_value(prefix) * 10 + d;
            }
            self.position += 1;
        }
        if overflow {
            let raw = vstd::slice::slice_subrange(self.input.as_slice(), start, self.position);
            return Err(cache_error3("invalid number `", raw, "`"));
        }
        Ok(value)
    }

    /// The message for a `\u` escape at `p` that is not four hexadecimal digits.
    fn unicode_escape_error(&self, p: usize) -> (r: AppError)
        requires
            p <= self.input@.len(),
        ensures
            r matches AppError::Cache(m) && m@ == bad_escape_message(self.input@, p as int),
    {
        let ghost s = self.input@;
        let mut k = p;
        let mut bytes: usize = 0;
        while k < self.input.len() && bytes < 4
            invariant
                s == self.input@,
                p <= k <= s.len(),
                bytes < 8,
                escape_span(s, p as int, 0) == escape_span(s, k as int, bytes as nat),
            decreases self.input.len() - k,
        {
            bytes = bytes + char_byte_width(self.input[k]);
            k += 1;
        }
        if bytes < 4 {
            cache_error("short unicode escape")
        } else if bytes > 4 {
            cache_error("invalid unicode escape")
        } else {
            let raw = vstd::slice::slice_subrange(self.input.as_slice(), p, k);
            cache_error3("invalid unicode escape `", raw, "`")
        }
    }

    fn parse_unicode_escape(&mut self) -> (r: AppResult<char>)
        requires
            old(self).position <= old(self).input@.len(),
        ensures
            final(self).input@ == old(self).input@,
            final(self).position <= final(self).input@.len(),
            match unicode_escape(old(self).input@, old(self).position as int) {
                Ok((c, e)) => r matches Ok(x) && x == c && final(self).position == e,
                Err(m) => r matches Err(AppError::Cache(x)) && x@ == m,
            },
    {
        let ghost s = self.input@;
        let p = self.position;
        let n = self.input.len();
        if p <= n && n - p >= 4 && (is_hex_char(self.input[p]) || self.input[p] == '+') && is_hex_char(self.input[p + 1])
            && is_hex_char(self.input[p + 2]) && is_hex_char(self.input[p + 3]) {
            let d1 = hex_char_value(self.input[p + 1]);
            let d2 = hex_char_value(self.input[p + 2]);
            let d3 = hex_char_value(self.input[p + 3]);
            let value: u32 = if self.input[p] == '+' {
                (d1 * 16 + d2) * 16 + d3
            } else {
                let d0 = hex_char_value(self.input[p]);
                ((d0 * 16 + d1) * 16 + d2) * 16 + d3
            };
            proof {
                let a = s.subrange(p + 1, p + 4);
                assert(a.drop_last().drop_last().drop_last() =~= Seq::<char>::empty());
                assert(hex_digits_value(Seq::<char>::empty()) == 0);
                assert(a.drop_last().drop_last() =~= seq![s[p + 1]]);
                assert(a.drop_last().drop_last().last() == s[p + 1]);
                assert(a.drop_last() =~= seq![s[p + 1], s[p + 2]]);
                assert(hex_digits_value(a.drop_last().drop_last()) == hex_value(s[p + 1]));
                assert(hex_digits_value(a.drop_last()) == hex_value(s[p + 1]) * 16 + hex_value(s[p + 2]));
                assert(hex_digits_value(a) == (hex_value(s[p + 1]) * 16 + hex_value(s[p + 2])) * 16 + hex_value(s[p + 3]));
                let b = s.subrange(p as int, p + 4);
                assert(b.drop_last().drop_last().drop_last().drop_last() =~= Seq::<char>::empty());
                assert(b.drop_last().drop_last().drop_last() =~= seq![s[p as int]]);
                assert(b.drop_last().drop_last().drop_last().last() == s[p as int]);
                assert(b.drop_last().drop_last() =~= seq![s[p as int], s[p + 1]]);
                assert(b.drop_last() =~= seq![s[p as int], s[p + 1], s[p + 2]]);
                assert(hex_digits_value(b.drop_last().drop_last().drop_last()) == hex_value(s[p as int]));
                assert(hex_digits_value(b.drop_last().drop_last()) == hex_value(s[p as int]) * 16 + hex_value(s[p + 1]));
                assert(hex_digits_value(b.drop_last()) == (hex_value(s[p as int]) * 16 + hex_value(s[p + 1])) * 16 + hex_value(s[p + 2]));
                assert(hex_digits_value(b) == ((hex_value(s[p as int]) * 16 + hex_value(s[p + 1])) * 16 + hex_value(s[p + 2])) * 16 + hex_value(s[p + 3]));
            }
            self.position = p + 4;
            match char_from_u32(value) {
                Some(c) => Ok(c),
                None => {
                    let digits = decimal_chars(value as u64);
                    Err(cache_error_then("invalid codepoint ", digits.as_slice()))
                },
            }
        } else {
            Err(self.unicode_escape_error(p))
        }
    }

    fn parse_string(&mut self) -> (r: AppResult<String>)
        requires
            old(self).position <= old(self).input@.len(),
            blen(old(self).input@) <= usize::MAX,
        ensures
            final(self).input@ == old(self).input@,
            final(self).position <= final(self).input@.len(),
            (old(self).position < old(self).input@.len() && old(self).input@[old(self).position as int] == '"') ==> match string_at(old(self).input@, old(self).position + 1, Seq::empty()) {
                Ok((t, e)) => r matches Ok(x) && x@ == t && final(self).position == e,
                Err(m) => r matches Err(AppError::Cache(x)) && x@ == m,
            },
            !(old(self).position < old(self).input@.len() && old(self).input@[old(self).position as int] == '"') ==>
                (r matches Err(AppError::Cache(x)) && x@ == expected_message('"', old(self).input@, old(self).position as int)),
            r is Ok ==> final(self).position > old(self).position,
    {
        let ghost s = self.input@;
        let ghost start = self.position as int;
        self.expect_byte('"')?;
        let mut output: Vec<char> = Vec::new();
        loop
            invariant
                self.input@ == s,
                start < self.position <= s.len(),
                old(self).input@ == s,
                old(self).position == start,
                start < s.len() && s[start] == '"',
                string_at(s, start + 1, Seq::empty()) == string_at(s, self.position as int, output@),
            decreases s.len() - self.position,
        {
            let p = self.position;
            match self.peek() {
                None => {
                    return Err(cache_error("unterminated string"));
                },
                Some(c) => {
                    assert(self.position < self.input.len());
                    if c == '"' {
                        self.position += 1;
                        return Ok(string_of(output.as_slice()));
                    } else if c == '\\' {
                        self.position += 1;
                        let escaped = match self.next() {
                            Some(e) => e,
                            None => {
                                return Err(cache_error("unterminated escape"));
                            },
                        };
                        if escaped == '"' {
                            output.push('"');
                        } else if escaped == '\\' {
                            output.push('\\');
                        } else if escaped == '/' {
                            output.push('/');
                        } else if escaped == 'b' {
                            output.push('\u{08}');
                        } else if escaped == 'f' {
                            output.push('\u{0c}');
                        } else if escaped == 'n' {
                            output.push('\n');
                        } else if escaped == 'r' {
                            output.push('\r');
                        } else if escaped == 't' {
                            output.push('\t');
                        } else if escaped == 'u' {
                            let ch = self.parse_unicode_escape()?;
                            output.push(ch);
                        } else {
                            let middle = vec!['\\', leading_byte_char(escaped)];
                            return Err(cache_error3("unsupported escape `", middle.as_slice(), "`"));
                        }
                    } else {
                        output.push(c);
                        self.position += 1;
                    }
                },
            }
        }
    }

    fn parse_value(&mut self) -> (r: AppResult<JsonValue>)
        requires
            old(self).position <= old(self).input@.len(),
            blen(old(self).input@) <= usize::MAX,
        ensures
            final(self).input@ == old(self).input@,
            final(self).position <= final(self).input@.len(),
            match value_at(old(self).input@, old(self).position as int) {
                Ok((v, e)) => r matches Ok(x) && json_view(x) == v && final(self).position == e,
                Err(m) => r matches Err(AppError::Cache(x)) && x@ == m,
            },
            r is Ok ==> final(self).position > old(self).position,
            r matches Ok(x) ==> unique_keys(json_view(x)),
        decreases old(self).input@.len() - old(self).position, 1int,
    {
        let ghost s = self.input@;
        let ghost start = self.position as int;
        self.skip_whitespace();
        proof {
            lemma_skip_ws(s, start);
        }
        let byte = match self.peek() {
            Some(b) => b,
            None => {
                return Err(cache_error("unexpected end of JSON"));
            },
        };
        if byte == '"' {
            let text = self.parse_string()?;
            Ok(JsonValue::String(text))
        } else if '0' <= byte && byte <= '9' {
            let n = self.parse_number()?;
            Ok(JsonValue::Number(n))
        } else if byte == '[' {
            let items = self.parse_array()?;
            proof {
                lemma_json_view_array(items);
            }
            Ok(JsonValue::Array(items))
        } else if byte == '{' {
            let members = self.parse_object()?;
            proof {
                lemma_json_view_object(members);
            }
            Ok(JsonValue::Object(members))
        } else {
            let offset = byte_offset(self.input.as_slice(), self.position);
            let mut message: Vec<char> = Vec::new();
            push_text(&mut message, "unexpected JSON byte `");
            message.push(leading_byte_char(byte));
            push_text(&mut message, "` at ");
            let digits = decimal_chars(offset as u64);
            push_all(&mut message, digits.as_slice());
            assert(message@ =~= unexpected_message(s, self.position as int));
            Err(AppError::Cache(string_of(message.as_slice())))
        }
    }

    fn parse_array(&mut self) -> (r: AppResult<Vec<JsonValue>>)
        requires
            old(self).position < old(self).input@.len(),
            old(self).input@[old(self).position as int] == '[',
            blen(old(self).input@) <= usize::MAX,
        ensures
            final(self).input@ == old(self).input@,
            final(self).position <= final(self).input@.len(),
            match items_at(old(self).input@, old(self).position + 1, Seq::empty()) {
                Ok((xs, e)) => r matches Ok(v) && json_views(v@) == xs && final(self).position == e,
                Err(m) => r matches Err(AppError::Cache(x)) && x@ == m,
            },
            r is Ok ==> final(self).position > old(self).position,
            r matches Ok(v) ==> forall|i: int| 0 <= i < v@.len() ==> unique_keys(#[trigger] json_views(v@)[i]),
        decreases old(self).input@.len() - old(self).position, 0int,
    {
        let ghost s = self.input@;
        let ghost start = self.position as int;
        self.expect_byte('[')?;
        let mut values: Vec<JsonValue> = Vec::new();
        assert(json_views(values@) =~= Seq::<Json>::empty());
        loop
            invariant
                self.input@ == s,
                blen(s) <= usize::MAX,
                start < self.position <= s.len(),
                old(self).input@ == s,
                old(self).position == start,
                items_at(s, start + 1, Seq::empty()) == items_at(s, self.position as int, json_views(values@)),
                forall|i: int| 0 <= i < values@.len() ==> unique_keys(#[trigger] json_views(values@)[i]),
            decreases s.len() - self.position,
        {
            let ghost p = self.position as int;
            self.skip_whitespace();
            proof {
                lemma_skip_ws(s, p);
            }
            if self.consume_if(']') {
                return Ok(values);
            }
            let ghost q = self.position as int;
            let value = self.parse_value()?;
            let ghost q1 = self.position as int;
            self.skip_whitespace();
            proof {
                lemma_skip_ws(s, q1);
            }
            if self.consume_if(']') {
                let ghost before = values@;
                values.push(value);
                assert(json_views(values@) =~= json_views(before).push(json_view(value)));
                return Ok(values);
            }
            self.expect_byte(',')?;
            let ghost before = values@;
            values.push(value);
            assert(json_views(values@) =~= json_views(before).push(json_view(value)));
        }
    }

    fn parse_object(&mut self) -> (r: AppResult<Vec<(String, JsonValue)>>)
        requires
            old(self).position < old(self).input@.len(),
            old(self).input@[old(self).position as int] == '{',
            blen(old(self).input@) <= usize::MAX,
        ensures
            final(self).input@ == old(self).input@,
            final(self).position <= final(self).input@.len(),
            match members_at(old(self).input@, old(self).position + 1, Seq::empty()) {
                Ok((ms, e)) => r matches Ok(v) && member_views(v@) == ms && final(self).position == e,
                Err(m) => r matches Err(AppError::Cache(x)) && x@ == m,
            },
            r is Ok ==> final(self).position > old(self).position,
            r matches Ok(v) ==> keys_distinct(member_views(v@)) && forall|i: int| 0 <= i < v@.len() ==> unique_keys(#[trigger] member_views(v@)[i].1),
        decreases old(self).input@.len() - old(self).position, 0int,
    {
        let ghost s = self.input@;
        let ghost start = self.position as int;
        self.expect_byte('{')?;
        let mut object: Vec<(String, JsonValue)> = Vec::new();
        assert(member_views(object@) =~= Seq::<(Seq<char>, Json)>::empty());
        loop
            invariant
                self.input@ == s,
                blen(s) <= usize::MAX,
                start < self.position <= s.len(),
                old(self).input@ == s,
                old(self).position == start,
                members_at(s, start + 1, Seq::empty()) == members_at(s, self.position as int, member_views(object@)),
                keys_distinct(member_views(object@)),
                forall|i: int| 0 <= i < object@.len() ==> unique_keys(#[trigger] member_views(object@)[i].1),
            decreases s.len() - self.position,
        {
            let ghost p = self.position as int;
            self.skip_whitespace();
            proof {
                lemma_skip_ws(s, p);
            }
            if self.consume_if('}') {
                return Ok(object);
            }
            let ghost q = self.position as int;
            let key = self.parse_string()?;
            proof {
                lemma_string_at_progress(s, q + 1, Seq::empty());
            }
            let ghost q2 = self.position as int;
            self.skip_whitespace();
            proof {
                lemma_skip_ws(s, q2);
            }
            self.expect_byte(':')?;
            assert(self.position > start);
            let value = self.parse_value()?;
            let ghost q3 = self.position as int;
            self.skip_whitespace();
            proof {
                lemma_skip_ws(s, q3);
            }
            if self.consume_if('}') {
                proof {
                    lemma_obj_insert_distinct(member_views(object@), key@, json_view(value));
                    lemma_key_pos(member_views(object@), key@);
                }
                let ghost before = object@;
                insert_member(&mut object, key, value);
                proof {
                    assert forall|i: int| 0 <= i < member_views(object@).len() implies unique_keys(#[trigger] member_views(object@)[i].1) by {
                        if i < before.len() {
                            assert(member_views(before)[i].1 == json_view(before[i].1));
                        }
                    }
                }
                return Ok(object);
            }
            self.expect_byte(',')?;
            proof {
                lemma_obj_insert_distinct(member_views(object@), key@, json_view(value));
                lemma_key_pos(member_views(object@), key@);
            }
            let ghost before = object@;
            insert_member(&mut object, key, value);
            proof {
                assert forall|i: int| 0 <= i < member_views(object@).len() implies unique_keys(#[trigger] member_views(object@)[i].1) by {
                    if i < before.len() {
                        assert(member_views(before)[i].1 == json_view(before[i].1));
                    }
                }
            }
        }
    }

    /// Reads one value and checks that only white space follows it.
    pub fn parse_complete(&mut self) -> (r: AppResult<JsonValue>)
        requires
            old(self).position <= old(self).input@.len(),
            blen(old(self).input@) <= usize::MAX,
        ensures
            match value_at(old(self).input@, old(self).position as int) {
                Ok((v, e)) => if skip_ws(old(self).input@, e) == old(self).input@.len() {
                    r matches Ok(x) && json_view(x) == v
                } else {
                    r matches Err(AppError::Cache(x)) && x@ == trailing_message(old(self).input@, skip_ws(old(self).input@, e))
                },
                Err(m) => r matches Err(AppError::Cache(x)) && x@ == m,
            },
            r matches Ok(x) ==> unique_keys(json_view(x)),
    {
        let value = self.parse_value()?;
        self.skip_whitespace();
        if self.peek().is_some() {
            let offset = byte_offset(self.input.as_slice(), self.position);
            let digits = decimal_chars(offset as u64);
            return Err(cache_error_then("unexpected trailing JSON at ", digits.as_slice()));
        }
        Ok(value)
    }
}

// ---------------------------------------------------------------------------
// Reading back what was written

/// The four digits written for a small code are hexadecimal and read back
/// as the code.
proof fn lemma_hex4_small(n: nat)
    requires
        n < 256,
    ensures
        hex4(n).len() == 4,
        hex4(n)[0] == '0',
        forall|k: int| 0 <= k < 4 ==> is_hex(#[trigger] hex4(n)[k]),
        hex_digits_value(hex4(n)) == n,
{
    reveal_with_fuel(hex_digits_value, 5);
    let h = hex4(n);
    if n < 16 {
        assert(hex(n) == seq![hex_digit_char(n)]);
        assert(h =~= seq!['0', '0', '0', hex_digit_char(n)]);
        lemma_hex_digit(n);
        assert(h.drop_last() =~= seq!['0', '0', '0']);
        assert(h.drop_last().drop_last() =~= seq!['0', '0']);
        assert(h.drop_last().drop_last().drop_last() =~= seq!['0']);
        assert(h.drop_last().drop_last().drop_last().drop_last() =~= Seq::<char>::empty());
    } else {
        let a = n / 16;
        let b = n % 16;
        assert(hex(a) == seq![hex_digit_char(a)]);
        assert(hex(n) == hex(a).push(hex_digit_char(b)));
        assert(h =~= seq!['0', '0', hex_digit_char(a), hex_digit_char(b)]);
        lemma_hex_digit(a);
        lemma_hex_digit(b);
        assert(h.drop_last() =~= seq!['0', '0', hex_digit_char(a)]);
        assert(h.drop_last().drop_last() =~= seq!['0', '0']);
        assert(h.drop_last().drop_last().drop_last() =~= seq!['0']);
        assert(h.drop_last().drop_last().drop_last().drop_last() =~= Seq::<char>::empty());
        assert(a * 16 + b == n);
    }
}

proof fn lemma_hex_digit(d: nat)
    requires
        d < 16,
    ensures
        is_hex(hex_digit_char(d)),
        hex_value(hex_digit_char(d)) == d,
{
}

/// One escaped character reads back as that character.
proof fn lemma_escape_char_read(s: Seq<char>, p: int, c: char, acc: Seq<char>)
    requires
        0 <= p,
        p + escape_char(c).len() <= s.len(),
        s.subrange(p, p + escape_char(c).len()) == escape_char(c),
    ensures
        string_at(s, p, acc) == string_at(s, p + escape_char(c).len(), acc.push(c)),
{
    let e = escape_char(c);
    assert(forall|k: int| 0 <= k < e.len() ==> s[p + k] == #[trigger] e[k]) by {
        assert forall|k: int| 0 <= k < e.len() implies s[p + k] == #[trigger] e[k] by {
            assert(s.subrange(p, p + e.len())[k] == s[p + k]);
        }
    }
    if c == '"' || c == '\\' || c == '\n' || c == '\r' || c == '\t' || c == '\u{08}' || c == '\u{0c}' {
        assert(e[0] == '\\');
        assert(s[p + 0] == e[0]);
        assert(s[p + 1] == e[1]);
    } else if is_control(c) {
        let n = c as nat;
        lemma_hex4_small(n);
        let h = hex4(n);
        assert(e == seq!['\\', 'u'] + h);
        assert(e[0] == '\\' && e[1] == 'u');
        assert(s[p + 0] == e[0]);
        assert(s[p + 1] == e[1]);
        assert(s.subrange(p + 2, p + 6) =~= h) by {
            assert forall|k: int| 0 <= k < 4 implies s.subrange(p + 2, p + 6)[k] == h[k] by {
                assert(e[k + 2] == h[k]);
            }
        }
        assert(s[p + 2] == h[0]);
        assert(s[p + 3] == h[1]);
        assert(s[p + 4] == h[2]);
        assert(s[p + 5] == h[3]);
        assert(is_scalar_value(n));
        assert((n as char) == c);
        assert(unicode_escape(s, p + 2) == Ok::<(char, int), Seq<char>>((c, p + 6)));
    } else {
        assert(e == seq![c]);
        assert(e[0] == c);
        assert(s[p + 0] == e[0]);
    }
}

/// An escaped text reads back as the text.
pub proof fn lemma_escape_read(s: Seq<char>, p: int, t: Seq<char>, acc: Seq<char>)
    requires
        0 <= p,
        p + escape(t).len() <= s.len(),
        s.subrange(p, p + escape(t).len()) == escape(t),
    ensures
        string_at(s, p, acc) == string_at(s, p + escape(t).len(), acc + t),
    decreases t.len(),
{
    if t.len() == 0 {
        assert(acc + t =~= acc);
    } else {
        let u = t.drop_last();
        let c = t.last();
        let eu = escape(u);
        let ec = escape_char(c);
        assert(escape(t) == eu + ec);
        assert(s.subrange(p, p + eu.len()) =~= eu) by {
            assert forall|k: int| 0 <= k < eu.len() implies s.subrange(p, p + eu.len())[k] == eu[k] by {
                assert(s.subrange(p, p + escape(t).len())[k] == escape(t)[k]);
            }
        }
        lemma_escape_read(s, p, u, acc);
        let p2 = p + eu.len();
        assert(s.subrange(p2, p2 + ec.len()) =~= ec) by {
            assert forall|k: int| 0 <= k < ec.len() implies s.subrange(p2, p2 + ec.len())[k] == ec[k] by {
                assert(s.subrange(p, p + escape(t).len())[eu.len() + k] == escape(t)[eu.len() + k]);
            }
        }
        lemma_escape_char_read(s, p2, c, acc + u);
        assert((acc + u).push(c) =~= acc + t);
    }
}

/// Decimal notation is made of digits and reads back as the number.
proof fn lemma_decimal_read_value(n: nat)
    ensures
        decimal(n).len() > 0,
        forall|k: int| 0 <= k < decimal(n).len() ==> is_digit(#[trigger] decimal(n)[k]),
        digits_value(decimal(n)) == n,
    decreases n,
{
    if n >= 10 {
        lemma_decimal_read_value(n / 10);
        let d = decimal(n);
        assert(d == decimal(n / 10).push(digit_char(n % 10)));
        assert(d.drop_last() =~= decimal(n / 10));
        assert forall|k: int| 0 <= k < d.len() implies is_digit(#[trigger] d[k]) by {
            if k < d.len() - 1 {
                assert(d[k] == decimal(n / 10)[k]);
            }
        }
        assert(d.last() == digit_char(n % 10));
        assert(digit_value(digit_char(n % 10)) == n % 10);
        assert(digits_value(d) == digits_value(d.drop_last()) * 10 + digit_value(d.last()));
        assert(digits_value(d.drop_last()) == n / 10);
        assert((n / 10) * 10 + n % 10 == n);
    } else {
        let d = decimal(n);
        assert(d.drop_last() =~= Seq::<char>::empty());
        assert(digit_value(digit_char(n)) == n);
        assert(digits_value(d) == digits_value(d.drop_last()) * 10 + digit_value(d.last()));
    }
}

proof fn lemma_digit_run_to(s: Seq<char>, q: int, e: int)
    requires
        0 <= q <= e <= s.len(),
        forall|k: int| q <= k < e ==> is_digit(#[trigger] s[k]),
        e < s.len() ==> !is_digit(s[e]),
    ensures
        digit_run(s, q) == e,
    decreases e - q,
{
    if q < e {
        lemma_digit_run_to(s, q + 1, e);
    }
}

/// A number written in decimal, followed by anything but a digit, reads back.
proof fn lemma_number_read(s: Seq<char>, p: int, n: nat)
    requires
        n <= u64::MAX,
        0 <= p,
        p + decimal(n).len() <= s.len(),
        s.subrange(p, p + decimal(n).len()) == decimal(n),
        p + decimal(n).len() < s.len() ==> !is_digit(s[p + decimal(n).len()]),
    ensures
        number_at(s, p) == Ok::<(nat, int), Seq<char>>((n, p + decimal(n).len())),
{
    let d = decimal(n);
    lemma_decimal_read_value(n);
    assert forall|k: int| p <= k < p + d.len() implies is_digit(#[trigger] s[k]) by {
        assert(s.subrange(p, p + d.len())[k - p] == s[k]);
        assert(is_digit(d[k - p]));
    }
    lemma_digit_run_to(s, p, p + d.len());
}

/// What a value's text starts with.
proof fn lemma_json_text_first(v: Json)
    ensures
        json_text(v).len() > 0,
        v is Str ==> json_text(v)[0] == '"',
        v is Num ==> is_digit(json_text(v)[0]),
        v is Arr ==> json_text(v)[0] == '[',
        v is Obj ==> json_text(v)[0] == '{',
        !is_json_space(json_text(v)[0]),
        json_text(v)[0] != ']',
        json_text(v)[0] != '}',
{
    match v {
        Json::Num(n) => {
            lemma_decimal_read_value(n);
        },
        _ => {},
    }
}

/// The text of an array's items, split after its first item.
proof fn lemma_items_text_front(items: Seq<Json>)
    requires
        items.len() >= 2,
    ensures
        items_text(items) == json_text(items[0]) + seq![','] + items_text(items.subrange(1, items.len() as int)),
    decreases items.len(),
{
    let rest = items.subrange(1, items.len() as int);
    if items.len() == 2 {
        assert(items.drop_last() =~= seq![items[0]]);
        assert(rest =~= seq![items[1]]);
        assert(items_text(items) == items_text(items.drop_last()) + seq![','] + json_text(items.last()));
    } else {
        let front = items.drop_last();
        lemma_items_text_front(front);
        assert(front.subrange(1, front.len() as int) =~= rest.drop_last());
        assert(rest.last() == items.last());
        assert(items_text(rest) == items_text(rest.drop_last()) + seq![','] + json_text(rest.last()));
        assert(items_text(items) =~= json_text(items[0]) + seq![','] + items_text(rest));
    }
}

/// The text of an object's members, split after its first member.
proof fn lemma_members_text_front(ms: Seq<(Seq<char>, Json)>)
    requires
        ms.len() >= 2,
    ensures
        members_text(ms) == quoted(ms[0].0) + seq![':'] + json_text(ms[0].1) + seq![','] + members_text(ms.subrange(1, ms.len() as int)),
    decreases ms.len(),
{
    let rest = ms.subrange(1, ms.len() as int);
    if ms.len() == 2 {
        assert(ms.drop_last() =~= seq![ms[0]]);
        assert(rest =~= seq![ms[1]]);
        assert(members_text(ms) == members_text(ms.drop_last()) + seq![','] + quoted(ms.last().0) + seq![':'] + json_text(ms.last().1));
    } else {
        let front = ms.drop_last();
        lemma_members_text_front(front);
        assert(front.subrange(1, front.len() as int) =~= rest.drop_last());
        assert(rest.last() == ms.last());
        assert(members_text(rest) == members_text(rest.drop_last()) + seq![','] + quoted(rest.last().0) + seq![':'] + json_text(rest.last().1));
        assert(members_text(ms) =~= quoted(ms[0].0) + seq![':'] + json_text(ms[0].1) + seq![','] + members_text(rest));
    }
}

proof fn lemma_sub_split(s: Seq<char>, p: int, a: Seq<char>, b: Seq<char>)
    requires
        0 <= p,
        p + a.len() + b.len() <= s.len(),
        s.subrange(p, p + a.len() + b.len()) == a + b,
    ensures
        s.subrange(p, p + a.len()) == a,
        s.subrange(p + a.len(), p + a.len() + b.len()) == b,
{
    assert(s.subrange(p, p + a.len()) =~= a) by {
        assert forall|k: int| 0 <= k < a.len() implies s.subrange(p, p + a.len())[k] == a[k] by {
            assert(s.subrange(p, p + a.len() + b.len())[k] == (a + b)[k]);
        }
    }
    assert(s.subrange(p + a.len(), p + a.len() + b.len()) =~= b) by {
        assert forall|k: int| 0 <= k < b.len() implies s.subrange(p + a.len(), p + a.len() + b.len())[k] == b[k] by {
            assert(s.subrange(p, p + a.len() + b.len())[a.len() + k] == (a + b)[a.len() + k]);
            assert(s.subrange(p, p + a.len() + b.len())[a.len() + k] == s[p + a.len() + k]);
            assert(s.subrange(p + a.len(), p + a.len() + b.len())[k] == s[p + a.len() + k]);
            assert((a + b)[a.len() + k] == b[k]);
        }
    }
}

proof fn lemma_sub_at(s: Seq<char>, p: int, a: Seq<char>, k: int)
    requires
        0 <= p,
        p + a.len() <= s.len(),
        s.subrange(p, p + a.len()) == a,
        0 <= k < a.len(),
    ensures
        s[p + k] == a[k],
{
    assert(s.subrange(p, p + a.len())[k] == s[p + k]);
}

/// What the reader gives back as written: every number fits in `u64` and
/// no object has a key twice.
pub open spec fn fits(v: Json) -> bool
    decreases v,
{
    match v {
        Json::Str(_) => true,
        Json::Num(n) => n <= u64::MAX,
        Json::Arr(xs) => forall|i: int| 0 <= i < xs.len() ==> fits(#[trigger] xs[i]),
        Json::Obj(ms) => keys_distinct(ms) && forall|i: int| 0 <= i < ms.len() ==> fits(#[trigger] ms[i].1),
    }
}

/// A string literal as written reads back as its text.
proof fn lemma_quoted_read(s: Seq<char>, p: int, x: Seq<char>)
    requires
        0 <= p,
        p + quoted(x).len() <= s.len(),
        s.subrange(p, p + quoted(x).len()) == quoted(x),
    ensures
        s[p] == '"',
        string_at(s, p + 1, Seq::empty()) == Ok::<(Seq<char>, int), Seq<char>>((x, p + quoted(x).len())),
{
    let ex = escape(x);
    lemma_sub_split(s, p, seq!['"'] + ex, seq!['"']);
    lemma_sub_split(s, p, seq!['"'], ex);
    lemma_sub_at(s, p, quoted(x), 0);
    lemma_sub_at(s, p, quoted(x), quoted(x).len() - 1);
    lemma_escape_read(s, p + 1, x, Seq::empty());
    assert(Seq::<char>::empty() + x =~= x);
}

/// A value as written reads back, when no digit follows it.
pub proof fn lemma_value_read(s: Seq<char>, p: int, v: Json)
    requires
        fits(v),
        0 <= p,
        p + json_text(v).len() <= s.len(),
        s.subrange(p, p + json_text(v).len()) == json_text(v),
        p + json_text(v).len() < s.len() ==> !is_digit(s[p + json_text(v).len()]),
    ensures
        value_at(s, p) == Ok::<(Json, int), Seq<char>>((v, p + json_text(v).len())),
    decreases v,
{
    let t = json_text(v);
    lemma_json_text_first(v);
    lemma_sub_at(s, p, t, 0);
    assert(skip_ws(s, p) == p);
    match v {
        Json::Str(x) => {
            lemma_quoted_read(s, p, x);
        },
        Json::Num(n) => {
            lemma_number_read(s, p, n);
        },
        Json::Arr(xs) => {
            let body = items_text(xs);
            lemma_sub_split(s, p, seq!['['] + body, seq![']']);
            lemma_sub_split(s, p, seq!['['], body);
            lemma_sub_at(s, p, t, t.len() - 1);
            lemma_items_read(s, p + 1, xs, Seq::empty());
            assert(Seq::<Json>::empty() + xs =~= xs);
        },
        Json::Obj(ms) => {
            let body = members_text(ms);
            lemma_sub_split(s, p, seq!['{'] + body, seq!['}']);
            lemma_sub_split(s, p, seq!['{'], body);
            lemma_sub_at(s, p, t, t.len() - 1);
            lemma_members_read(s, p + 1, ms, Seq::empty());
            assert(Seq::<(Seq<char>, Json)>::empty() + ms =~= ms);
        },
    }
}

/// Items as written, followed by `]`, read back.
proof fn lemma_items_read(s: Seq<char>, q: int, xs: Seq<Json>, acc: Seq<Json>)
    requires
        forall|i: int| 0 <= i < xs.len() ==> fits(#[trigger] xs[i]),
        0 <= q,
        q + items_text(xs).len() < s.len(),
        s.subrange(q, q + items_text(xs).len()) == items_text(xs),
        s[q + items_text(xs).len()] == ']',
    ensures
        items_at(s, q, acc) == Ok::<(Seq<Json>, int), Seq<char>>((acc + xs, q + items_text(xs).len() + 1)),
    decreases xs,
{
    if xs.len() == 0 {
        assert(skip_ws(s, q) == q);
        assert(acc + xs =~= acc);
    } else {
        let x0 = xs[0];
        let t0 = json_text(x0);
        lemma_json_text_first(x0);
        if xs.len() == 1 {
            assert(items_text(xs) == t0);
            lemma_sub_at(s, q, t0, 0);
            assert(skip_ws(s, q) == q);
            lemma_value_read(s, q, x0);
            assert(skip_ws(s, q + t0.len()) == q + t0.len());
            assert(acc.push(x0) =~= acc + xs);
        } else {
            let rest = xs.subrange(1, xs.len() as int);
            lemma_items_text_front(xs);
            let tr = items_text(rest);
            lemma_sub_split(s, q, t0 + seq![','], tr);
            lemma_sub_split(s, q, t0, seq![',']);
            lemma_sub_at(s, q, t0, 0);
            assert(skip_ws(s, q) == q);
            lemma_sub_at(s, q + t0.len(), seq![','], 0);
            lemma_value_read(s, q, x0);
            assert(skip_ws(s, q + t0.len()) == q + t0.len());
            assert forall|i: int| 0 <= i < rest.len() implies fits(#[trigger] rest[i]) by {
                assert(rest[i] == xs[i + 1]);
            }
            lemma_items_read(s, q + t0.len() + 1, rest, acc.push(x0));
            assert(acc.push(x0) + rest =~= acc + xs);
        }
    }
}

/// Members as written, followed by `}`, read back.
proof fn lemma_members_read(s: Seq<char>, q: int, ms: Seq<(Seq<char>, Json)>, acc: Seq<(Seq<char>, Json)>)
    requires
        forall|i: int| 0 <= i < ms.len() ==> fits(#[trigger] ms[i].1),
        keys_distinct(ms),
        forall|i: int, j: int| 0 <= i < acc.len() && 0 <= j < ms.len() ==> (#[trigger] acc[i]).0 != (#[trigger] ms[j]).0,
        0 <= q,
        q + members_text(ms).len() < s.len(),
        s.subrange(q, q + members_text(ms).len()) == members_text(ms),
        s[q + members_text(ms).len()] == '}',
    ensures
        members_at(s, q, acc) == Ok::<(Seq<(Seq<char>, Json)>, int), Seq<char>>((acc + ms, q + members_text(ms).len() + 1)),
    decreases ms,
{
    if ms.len() == 0 {
        assert(skip_ws(s, q) == q);
        assert(acc + ms =~= acc);
    } else {
        let k0 = ms[0].0;
        let x0 = ms[0].1;
        let qk = quoted(k0);
        let t0 = json_text(x0);
        let m0 = qk + seq![':'] + t0;
        lemma_json_text_first(x0);
        let q2 = q + qk.len();
        let q3 = q2 + 1 + t0.len();
        if ms.len() == 1 {
            assert(members_text(ms) == m0);
        } else {
            lemma_members_text_front(ms);
            assert(members_text(ms) == m0 + seq![','] + members_text(ms.subrange(1, ms.len() as int)));
        }
        assert(s.subrange(q, q + m0.len()) == m0) by {
            if ms.len() > 1 {
                let tr = members_text(ms.subrange(1, ms.len() as int));
                lemma_sub_split(s, q, m0 + seq![','], tr);
                lemma_sub_split(s, q, m0, seq![',']);
            }
        }
        lemma_sub_split(s, q, qk + seq![':'], t0);
        lemma_sub_split(s, q, qk, seq![':']);
        lemma_quoted_read(s, q, k0);
        assert(skip_ws(s, q) == q);
        lemma_sub_at(s, q2, seq![':'], 0);
        assert(skip_ws(s, q2) == q2);
        assert(fits(x0));
        lemma_key_pos(acc, k0);
        assert forall|j: int| 0 <= j < acc.len() implies (#[trigger] acc[j]).0 != k0 by {
            assert(acc[j].0 != ms[0].0);
        }
        assert(obj_insert(acc, k0, x0) == acc.push((k0, x0)));
        if ms.len() == 1 {
            lemma_value_read(s, q2 + 1, x0);
            assert(skip_ws(s, q3) == q3);
            assert(acc.push((k0, x0)) =~= acc + ms);
        } else {
            let rest = ms.subrange(1, ms.len() as int);
            let tr = members_text(rest);
            lemma_sub_split(s, q, m0 + seq![','], tr);
            lemma_sub_split(s, q, m0, seq![',']);
            lemma_sub_at(s, q3, seq![','], 0);
            lemma_value_read(s, q2 + 1, x0);
            assert(skip_ws(s, q3) == q3);
            assert forall|i: int| 0 <= i < rest.len() implies fits(#[trigger] rest[i].1) by {
                assert(rest[i] == ms[i + 1]);
            }
            assert forall|a: int, b: int| 0 <= a < b < rest.len() implies (#[trigger] rest[a]).0 != (#[trigger] rest[b]).0 by {
                assert(rest[a] == ms[a + 1]);
                assert(rest[b] == ms[b + 1]);
            }
            let acc2 = acc.push((k0, x0));
            assert forall|i: int, j: int| 0 <= i < acc2.len() && 0 <= j < rest.len() implies (#[trigger] acc2[i]).0 != (#[trigger] rest[j]).0 by {
                assert(rest[j] == ms[j + 1]);
                if i < acc.len() {
                    assert(acc2[i] == acc[i]);
                } else {
                    assert(acc2[i].0 == ms[0].0);
                }
            }
            lemma_members_read(s, q3 + 1, rest, acc.push((k0, x0)));
            assert(acc.push((k0, x0)) + rest =~= acc + ms);
        }
    }
}

/// The text of a value reads back as the value: what `JsonParser::parse_complete`
/// returns for it.
pub proof fn lemma_json_round_trip(v: Json)
    requires
        fits(v),
    ensures
        complete_value(json_text(v)) == Ok::<Json, Seq<char>>(v),
{
    let s = json_text(v);
    assert(s.subrange(0, s.len() as int) =~= s);
    lemma_value_read(s, 0, v);
}

proof fn lemma_escape_char_no_control(c: char)
    ensures
        forall|k: int| 0 <= k < escape_char(c).len() ==> !is_control(#[trigger] escape_char(c)[k]),
{
    let e = escape_char(c);
    if c == '"' || c == '\\' || c == '\n' || c == '\r' || c == '\t' || c == '\u{08}' || c == '\u{0c}' {
    } else if is_control(c) {
        let n = c as nat;
        lemma_hex4_small(n);
        assert(e == seq!['\\', 'u'] + hex4(n));
        assert forall|k: int| 0 <= k < e.len() implies !is_control(#[trigger] e[k]) by {
            if k >= 2 {
                assert(e[k] == hex4(n)[k - 2]);
            }
        }
    }
}

/// Escaped text holds no control character.
pub proof fn lemma_escape_no_control(t: Seq<char>)
    ensures
        forall|k: int| 0 <= k < escape(t).len() ==> !is_control(#[trigger] escape(t)[k]),
    decreases t.len(),
{
    if t.len() > 0 {
        let u = t.drop_last();
        let c = t.last();
        lemma_escape_no_control(u);
        let e = escape_char(c);
        lemma_escape_char_no_control(c);
        assert forall|k: int| 0 <= k < escape(t).len() implies !is_control(#[trigger] escape(t)[k]) by {
            if k < escape(u).len() {
                assert(escape(t)[k] == escape(u)[k]);
            } else {
                assert(escape(t)[k] == e[k - escape(u).len()]);
            }
        }
    }
}

/// The text of a value holds no control character: a record written on a
/// line stays on that line.
pub proof fn lemma_json_text_no_control(v: Json)
    ensures
        forall|k: int| 0 <= k < json_text(v).len() ==> !is_control(#[trigger] json_text(v)[k]),
    decreases v,
{
    let t = json_text(v);
    match v {
        Json::Str(x) => {
            lemma_escape_no_control(x);
            assert forall|k: int| 0 <= k < t.len() implies !is_control(#[trigger] t[k]) by {
                if 0 < k < t.len() - 1 {
                    assert(t[k] == escape(x)[k - 1]);
                }
            }
        },
        Json::Num(n) => {
            lemma_decimal_read_value(n);
        },
        Json::Arr(xs) => {
            lemma_items_no_control(xs);
            assert forall|k: int| 0 <= k < t.len() implies !is_control(#[trigger] t[k]) by {
                if 0 < k < t.len() - 1 {
                    assert(t[k] == items_text(xs)[k - 1]);
                }
            }
        },
        Json::Obj(ms) => {
            lemma_members_no_control(ms);
            assert forall|k: int| 0 <= k < t.len() implies !is_control(#[trigger] t[k]) by {
                if 0 < k < t.len() - 1 {
                    assert(t[k] == members_text(ms)[k - 1]);
                }
            }
        },
    }
}

proof fn lemma_items_no_control(xs: Seq<Json>)
    ensures
        forall|k: int| 0 <= k < items_text(xs).len() ==> !is_control(#[trigger] items_text(xs)[k]),
    decreases xs,
{
    if xs.len() == 1 {
        lemma_json_text_no_control(xs[0]);
    } else if xs.len() > 1 {
        let f = items_text(xs.drop_last());
        let l = json_text(xs.last());
        lemma_items_no_control(xs.drop_last());
        lemma_json_text_no_control(xs.last());
        let t = items_text(xs);
        assert(t == f + seq![','] + l);
        assert forall|k: int| 0 <= k < t.len() implies !is_control(#[trigger] t[k]) by {
            if k < f.len() {
                assert(t[k] == f[k]);
            } else if k > f.len() {
                assert(t[k] == l[k - f.len() - 1]);
            }
        }
    }
}

proof fn lemma_members_no_control(ms: Seq<(Seq<char>, Json)>)
    ensures
        forall|k: int| 0 <= k < members_text(ms).len() ==> !is_control(#[trigger] members_text(ms)[k]),
    decreases ms,
{
    if ms.len() >= 1 {
        let key = if ms.len() == 1 { ms[0].0 } else { ms.last().0 };
        let val = if ms.len() == 1 { ms[0].1 } else { ms.last().1 };
        let m = quoted(key) + seq![':'] + json_text(val);
        lemma_escape_no_control(key);
        lemma_json_text_no_control(val);
        assert forall|k: int| 0 <= k < m.len() implies !is_control(#[trigger] m[k]) by {
            let q = quoted(key);
            if k < q.len() {
                assert(m[k] == q[k]);
                if 0 < k < q.len() - 1 {
                    assert(q[k] == escape(key)[k - 1]);
                }
            } else if k > q.len() {
                assert(m[k] == json_text(val)[k - q.len() - 1]);
            }
        }
        if ms.len() == 1 {
            assert(members_text(ms) == m);
        } else {
            let f = members_text(ms.drop_last());
            lemma_members_no_control(ms.drop_last());
            let t = members_text(ms);
            assert(t =~= f + seq![','] + m);
            assert forall|k: int| 0 <= k < t.len() implies !is_control(#[trigger] t[k]) by {
                if k < f.len() {
                    assert(t[k] == f[k]);
                } else if k > f.len() {
                    assert(t[k] == m[k - f.len() - 1]);
                }
            }
        }
    }
}

/// A text written as a JSON string reads back as the text, the reader
/// stopping just after the closing quote.
pub proof fn lemma_string_round_trip(t: Seq<char>)
    ensures
        string_at(quoted(t), 1, Seq::empty()) == Ok::<(Seq<char>, int), Seq<char>>((t, quoted(t).len() as int)),
        complete_value(quoted(t)) == Ok::<Json, Seq<char>>(Json::Str(t)),
{
    let s = quoted(t);
    assert(s.subrange(0, s.len() as int) =~= s);
    lemma_quoted_read(s, 0, t);
    lemma_json_round_trip(Json::Str(t));
}

/// A string literal without a closing quote, or with an escape that JSON
/// lacks, is refused.
pub proof fn lemma_string_refused(s: Seq<char>, p: int, acc: Seq<char>)
    ensures
        (forall|k: int| p <= k < s.len() ==> s[k] != '"') ==> string_at(s, p, acc) is Err,
        0 <= p && p + 1 < s.len() && s[p] == '\\' && s[p + 1] != 'u' && simple_escape(s[p + 1]) is None
            ==> string_at(s, p, acc) is Err,
    decreases s.len() - p,
{
    if 0 <= p < s.len() && s[p] != '"' {
        if s[p] == '\\' {
            if p + 1 < s.len() {
                if s[p + 1] == 'u' {
                    if let Ok((c, q)) = unicode_escape(s, p + 2) {
                        lemma_string_refused(s, q, acc.push(c));
                    }
                } else if let Some(c) = simple_escape(s[p + 1]) {
                    lemma_string_refused(s, p + 2, acc.push(c));
                }
            }
        } else {
            lemma_string_refused(s, p + 1, acc.push(s[p]));
        }
    }
}

} // verus!
