//! The serialization grammar, at the specification level: character classes,
//! string escaping, the shape of number literals, and the encoding of a value
//! tree as a sequence of characters.
use vstd::prelude::*;
use crate::model::{SpecRecord, SpecValue};

verus! {

// ---------------------------------------------------------------------------
// Character classes
// ---------------------------------------------------------------------------
pub open spec fn is_ws(c: char) -> bool {
    c == ' ' || c == '\t' || c == '\n' || c == '\r'
}

pub open spec fn is_digit(c: char) -> bool {
    48 <= c as u32 <= 57
}

pub open spec fn digit_val(c: char) -> int {
    c as u32 - 48
}

/// The characters a number literal may be built from.
pub open spec fn is_num_char(c: char) -> bool {
    is_digit(c) || c == '-' || c == '+' || c == '.' || c == 'e' || c == 'E'
}

pub open spec fn is_hex_digit(c: char) -> bool {
    is_digit(c) || (97 <= c as u32 <= 102) || (65 <= c as u32 <= 70)
}

pub open spec fn hex_val(c: char) -> int {
    if is_digit(c) {
        c as u32 - 48
    } else if 97 <= c as u32 <= 102 {
        c as u32 - 87
    } else {
        c as u32 - 55
    }
}

pub open spec fn digit_char(n: int) -> char {
    if n == 0 { '0' }
    else if n == 1 { '1' }
    else if n == 2 { '2' }
    else if n == 3 { '3' }
    else if n == 4 { '4' }
    else if n == 5 { '5' }
    else if n == 6 { '6' }
    else if n == 7 { '7' }
    else if n == 8 { '8' }
    else { '9' }
}

pub open spec fn hex_digit_char(n: int) -> char {
    if n < 10 { digit_char(n) }
    else if n == 10 { 'a' }
    else if n == 11 { 'b' }
    else if n == 12 { 'c' }
    else if n == 13 { 'd' }
    else if n == 14 { 'e' }
    else { 'f' }
}

// ---------------------------------------------------------------------------
// Runs of characters drawn from a class
// ---------------------------------------------------------------------------

/// The first position at or after `i` whose character does not satisfy `p`
/// (or the end of `s`).
pub open spec fn run_end(s: Seq<char>, i: int, p: spec_fn(char) -> bool) -> int
    decreases s.len() - i,
{
    if 0 <= i < s.len() && p(s[i]) {
        run_end(s, i + 1, p)
    } else {
        i
    }
}

pub proof fn lemma_run_end(s: Seq<char>, i: int, p: spec_fn(char) -> bool)
    requires
        0 <= i <= s.len(),
    ensures
        i <= run_end(s, i, p) <= s.len(),
        forall|k: int| i <= k < run_end(s, i, p) ==> p(s[k]),
        run_end(s, i, p) < s.len() ==> !p(s[run_end(s, i, p)]),
    decreases s.len() - i,
{
    if i < s.len() && p(s[i]) {
        lemma_run_end(s, i + 1, p);
    }
}

/// A run is exactly delimited: all of `[i, j)` satisfies `p` and `j` is the
/// end of `s` or fails `p`.
pub proof fn lemma_run_end_is(s: Seq<char>, i: int, j: int, p: spec_fn(char) -> bool)
    requires
        0 <= i <= j <= s.len(),
        forall|k: int| i <= k < j ==> p(#[trigger] s[k]),
        j < s.len() ==> !p(s[j]),
    ensures
        run_end(s, i, p) == j,
    decreases j - i,
{
    if i < j {
        lemma_run_end_is(s, i + 1, j, p);
    }
}

pub open spec fn skip_ws(s: Seq<char>, i: int) -> int {
    run_end(s, i, |c: char| is_ws(c))
}

pub open spec fn digits_end(s: Seq<char>, i: int) -> int {
    run_end(s, i, |c: char| is_digit(c))
}

pub open spec fn num_end(s: Seq<char>, i: int) -> int {
    run_end(s, i, |c: char| is_num_char(c))
}

pub proof fn lemma_skip_ws_bounds(s: Seq<char>, i: int)
    requires
        0 <= i <= s.len(),
    ensures
        i <= skip_ws(s, i) <= s.len(),
        skip_ws(s, i) < s.len() ==> !is_ws(s[skip_ws(s, i)]),
{
    lemma_run_end(s, i, |c: char| is_ws(c));
}

/// Whitespace skipping does not move off a non-whitespace character.
pub proof fn lemma_skip_ws_at(s: Seq<char>, i: int)
    requires
        0 <= i <= s.len(),
        i < s.len() ==> !is_ws(s[i]),
    ensures
        skip_ws(s, i) == i,
{
}

// ---------------------------------------------------------------------------
// Number literals
// ---------------------------------------------------------------------------

/// End of the optional fraction part starting at `i`, or -1 when `.` is not
/// followed by at least one digit.
pub open spec fn frac_end(t: Seq<char>, i: int) -> int {
    if 0 <= i < t.len() && t[i] == '.' {
        let e = digits_end(t, i + 1);
        if e > i + 1 { e } else { -1 }
    } else {
        i
    }
}

/// End of the optional exponent part starting at `i`, or -1 when it is
/// malformed; -1 in propagates to -1 out.
pub open spec fn exp_end(t: Seq<char>, i: int) -> int {
    if i < 0 {
        -1
    } else if 0 <= i < t.len() && (t[i] == 'e' || t[i] == 'E') {
        let k = if i + 1 < t.len() && (t[i + 1] == '+' || t[i + 1] == '-') { i + 2 } else { i + 1 };
        let e = digits_end(t, k);
        if e > k { e } else { -1 }
    } else {
        i
    }
}

/// `t` is a decimal number literal: an optional minus sign, at least one
/// digit, an optional fraction, an optional exponent, and nothing else.
pub open spec fn is_number_lit(t: Seq<char>) -> bool {
    let i0: int = if t.len() > 0 && t[0] == '-' { 1 } else { 0 };
    let i1 = digits_end(t, i0);
    i1 > i0 && exp_end(t, frac_end(t, i1)) == t.len()
}

// ---------------------------------------------------------------------------
// String escaping
// ---------------------------------------------------------------------------

/// The characters that stand for `c` inside a quoted string.
pub open spec fn esc_char(c: char) -> Seq<char> {
    if c == '"' {
        seq!['\\', '"']
    } else if c == '\\' {
        seq!['\\', '\\']
    } else if (c as u32) < 32 {
        seq!['\\', 'u', '0', '0',
            hex_digit_char(c as u32 as int / 16), hex_digit_char(c as u32 as int % 16)]
    } else {
        seq![c]
    }
}

pub open spec fn esc(t: Seq<char>) -> Seq<char>
    decreases t,
{
    if t.len() == 0 {
        Seq::empty()
    } else {
        esc_char(t[0]) + esc(t.drop_first())
    }
}

/// A quoted, escaped string.
pub open spec fn enc_string(t: Seq<char>) -> Seq<char> {
    seq!['"'] + esc(t) + seq!['"']
}

pub proof fn lemma_esc_take(t: Seq<char>, k: int)
    requires
        0 <= k < t.len(),
    ensures
        esc(t.take(k + 1)) == esc(t.take(k)) + esc_char(t[k]),
    decreases k,
{
    if k == 0 {
        assert(t.take(1).drop_first() =~= Seq::<char>::empty());
        assert(t.take(0) =~= Seq::<char>::empty());
        assert(esc(t.take(1)) =~= esc(t.take(0)) + esc_char(t[0]));
    } else {
        lemma_esc_take(t.drop_first(), k - 1);
        assert(t.take(k + 1).drop_first() =~= t.drop_first().take(k));
        assert(t.take(k).drop_first() =~= t.drop_first().take(k - 1));
        assert(esc(t.take(k + 1)) =~= esc(t.take(k)) + esc_char(t[k]));
    }
}

/// A character that stands for itself inside a quoted string.
pub open spec fn plain_char(c: char) -> bool {
    c != '"' && c != '\\' && c as u32 >= 32
}

pub proof fn lemma_esc_plain(t: Seq<char>)
    requires
        forall|k: int| 0 <= k < t.len() ==> plain_char(#[trigger] t[k]),
    ensures
        esc(t) == t,
    decreases t,
{
    if t.len() == 0 {
        assert(esc(t) =~= t);
    } else {
        lemma_esc_plain(t.drop_first());
        assert(esc(t) =~= t);
    }
}

// ---------------------------------------------------------------------------
// The five tags and the two record keys
// ---------------------------------------------------------------------------
pub open spec fn tag_int() -> Seq<char> {
    seq!['I', 'n', 't']
}

pub open spec fn tag_float() -> Seq<char> {
    seq!['F', 'l', 'o', 'a', 't']
}

pub open spec fn tag_text() -> Seq<char> {
    seq!['T', 'e', 'x', 't']
}

pub open spec fn tag_map() -> Seq<char> {
    seq!['M', 'a', 'p']
}

pub open spec fn tag_list() -> Seq<char> {
    seq!['L', 'i', 's', 't']
}

/// A tag is one of the five the grammar recognizes.
pub open spec fn recognized_tag(t: Seq<char>) -> bool {
    t == tag_int() || t == tag_float() || t == tag_text() || t == tag_map() || t == tag_list()
}

pub open spec fn field_key() -> Seq<char> {
    seq!['f', 'i', 'e', 'l', 'd']
}

pub open spec fn value_key() -> Seq<char> {
    seq!['v', 'a', 'l', 'u', 'e']
}

/// The quoted form of each tag and key: their characters need no escaping.
pub proof fn lemma_tag_strings()
    ensures
        enc_string(tag_int()) == seq!['"', 'I', 'n', 't', '"'],
        enc_string(tag_float()) == seq!['"', 'F', 'l', 'o', 'a', 't', '"'],
        enc_string(tag_text()) == seq!['"', 'T', 'e', 'x', 't', '"'],
        enc_string(tag_map()) == seq!['"', 'M', 'a', 'p', '"'],
        enc_string(tag_list()) == seq!['"', 'L', 'i', 's', 't', '"'],
        enc_string(field_key()) == seq!['"', 'f', 'i', 'e', 'l', 'd', '"'],
        enc_string(value_key()) == seq!['"', 'v', 'a', 'l', 'u', 'e', '"'],
{
    lemma_esc_plain(tag_int());
    lemma_esc_plain(tag_float());
    lemma_esc_plain(tag_text());
    lemma_esc_plain(tag_map());
    lemma_esc_plain(tag_list());
    lemma_esc_plain(field_key());
    lemma_esc_plain(value_key());
    assert(enc_string(tag_int()) =~= seq!['"', 'I', 'n', 't', '"']);
    assert(enc_string(tag_float()) =~= seq!['"', 'F', 'l', 'o', 'a', 't', '"']);
    assert(enc_string(tag_text()) =~= seq!['"', 'T', 'e', 'x', 't', '"']);
    assert(enc_string(tag_map()) =~= seq!['"', 'M', 'a', 'p', '"']);
    assert(enc_string(tag_list()) =~= seq!['"', 'L', 'i', 's', 't', '"']);
    assert(enc_string(field_key()) =~= seq!['"', 'f', 'i', 'e', 'l', 'd', '"']);
    assert(enc_string(value_key()) =~= seq!['"', 'v', 'a', 'l', 'u', 'e', '"']);
}

// ---------------------------------------------------------------------------
// Integer literals
// ---------------------------------------------------------------------------
pub open spec fn int_digits(n: int) -> Seq<char>
    decreases n,
{
    if n < 10 {
        seq![digit_char(n)]
    } else {
        int_digits(n / 10).push(digit_char(n % 10))
    }
}

pub open spec fn int_lit(i: int) -> Seq<char> {
    if i < 0 {
        seq!['-'] + int_digits(-i)
    } else {
        int_digits(i)
    }
}

// ---------------------------------------------------------------------------
// The encoding of a value and of a record
// ---------------------------------------------------------------------------

/// The tag that names the active variant of `v` in the serialized form.
pub open spec fn tag_of(v: SpecValue) -> Seq<char> {
    match v {
        SpecValue::Integer(_) => tag_int(),
        SpecValue::Float(_) => tag_float(),
        SpecValue::Text(_) => tag_text(),
        SpecValue::Mapping(_) => tag_map(),
        SpecValue::List(_) => tag_list(),
    }
}

/// The payload of `v`, without the tagged wrapper object around it.
pub open spec fn enc_payload(v: SpecValue) -> Seq<char>
    decreases v, 1int, 0int,
{
    match v {
        SpecValue::Integer(i) => int_lit(i),
        SpecValue::Float(t) => t,
        SpecValue::Text(t) => enc_string(t),
        SpecValue::Mapping(ps) => seq!['{'] + enc_members(ps, 0) + seq!['}'],
        SpecValue::List(vs) => seq!['['] + enc_elems(vs, 0) + seq![']'],
    }
}

/// The serialized form of `v`: a one-member object whose key is the tag and
/// whose value is the payload.
pub open spec fn enc_value(v: SpecValue) -> Seq<char>
    decreases v, 2int, 0int,
{
    seq!['{'] + enc_string(tag_of(v)) + seq![':'] + enc_payload(v) + seq!['}']
}

/// The members of a mapping payload, from index `k` on, separated by commas.
pub open spec fn enc_members(ps: Seq<(Seq<char>, SpecValue)>, k: int) -> Seq<char>
    decreases ps, 0int, ps.len() - k,
{
    if 0 <= k < ps.len() {
        enc_string(ps[k].0) + seq![':'] + enc_value(ps[k].1)
            + (if k + 1 < ps.len() { seq![','] + enc_members(ps, k + 1) } else { Seq::empty() })
    } else {
        Seq::empty()
    }
}

/// The elements of a list payload, from index `k` on, separated by commas.
pub open spec fn enc_elems(vs: Seq<SpecValue>, k: int) -> Seq<char>
    decreases vs, 0int, vs.len() - k,
{
    if 0 <= k < vs.len() {
        enc_value(vs[k])
            + (if k + 1 < vs.len() { seq![','] + enc_elems(vs, k + 1) } else { Seq::empty() })
    } else {
        Seq::empty()
    }
}

/// The serialized form of a record: the two keys in their canonical order.
pub open spec fn enc_record(m: SpecRecord) -> Seq<char> {
    seq!['{'] + enc_string(field_key()) + seq![':'] + enc_string(m.field) + seq![',']
        + enc_string(value_key()) + seq![':'] + enc_value(m.value) + seq!['}']
}

// ---------------------------------------------------------------------------
// Well-formedness: what the encoder can render
// ---------------------------------------------------------------------------

/// The keys of a mapping are pairwise distinct.
pub open spec fn distinct_keys(ps: Seq<(Seq<char>, SpecValue)>) -> bool {
    forall|a: int, b: int| 0 <= a < b < ps.len() ==> (#[trigger] ps[a]).0 != (#[trigger] ps[b]).0
}

/// A value every one of whose `Float` payloads is a number literal, every one
/// of whose `Integer` payloads fits the 32-bit signed range, and every one of
/// whose mappings has pairwise-distinct keys.  Exactly these values can be
/// rendered.
pub open spec fn wf_value(v: SpecValue) -> bool
    decreases v,
{
    match v {
        SpecValue::Integer(i) => i32::MIN <= i <= i32::MAX,
        SpecValue::Float(t) => is_number_lit(t),
        SpecValue::Text(_) => true,
        SpecValue::Mapping(ps) => distinct_keys(ps) && (forall|k: int|
            0 <= k < ps.len() ==> wf_value(#[trigger] ps[k].1)),
        SpecValue::List(vs) => forall|k: int| 0 <= k < vs.len() ==> wf_value(#[trigger] vs[k]),
    }
}

pub open spec fn wf_record(m: SpecRecord) -> bool {
    wf_value(m.value)
}

} // verus!
