//! The parser for the serialization grammar, at the specification level.
//!
//! Every function consumes from position `i` of `s` and returns the parsed
//! item together with the position just past it, or `None` when the text does
//! not match the grammar at that position.  Insignificant whitespace is
//! allowed between tokens; scalars, strings and keys are read exactly.
use vstd::prelude::*;
use crate::model::SpecValue;
use crate::model::SpecRecord;
use crate::grammar::{
    digits_end, digit_val, distinct_keys, field_key, is_digit, is_hex_digit, is_num_char,
    is_number_lit, hex_val, lemma_run_end, lemma_skip_ws_bounds, num_end, skip_ws, tag_float,
    tag_int, tag_list, tag_map, tag_text, value_key, wf_record, wf_value,
};

verus! {

// ---------------------------------------------------------------------------
// Strings
// ---------------------------------------------------------------------------

/// The character an escape letter stands for, if it is a recognized one.
pub open spec fn esc_code(c: char) -> Option<char> {
    if c == '"' { Some('"') }
    else if c == '\\' { Some('\\') }
    else if c == '/' { Some('/') }
    else if c == 'b' { Some('\u{0008}') }
    else if c == 'f' { Some('\u{000c}') }
    else if c == 'n' { Some('\n') }
    else if c == 'r' { Some('\r') }
    else if c == 't' { Some('\t') }
    else { None }
}

pub open spec fn cons_parsed(c: char, r: Option<(Seq<char>, int)>) -> Option<(Seq<char>, int)> {
    match r {
        Some((t, j)) => Some((seq![c] + t, j)),
        None => None,
    }
}

/// The body of a quoted string, after the opening quote: characters up to the
/// closing quote, with escapes decoded.  Raw control characters, unterminated
/// text, unrecognized escapes and surrogate code points do not parse.
pub open spec fn parse_str_body(s: Seq<char>, i: int) -> Option<(Seq<char>, int)>
    decreases s.len() - i,
{
    if !(0 <= i < s.len()) {
        None
    } else if s[i] == '"' {
        Some((Seq::empty(), i + 1))
    } else if s[i] == '\\' {
        if i + 1 < s.len() {
            if s[i + 1] == 'u' {
                if i + 5 < s.len() && is_hex_digit(s[i + 2]) && is_hex_digit(s[i + 3])
                    && is_hex_digit(s[i + 4]) && is_hex_digit(s[i + 5]) {
                    let v = hex_val(s[i + 2]) * 4096 + hex_val(s[i + 3]) * 256 + hex_val(
                        s[i + 4],
                    ) * 16 + hex_val(s[i + 5]);
                    if v < 0xD800 || v >= 0xE000 {
                        cons_parsed(((v as u32) as char), parse_str_body(s, i + 6))
                    } else {
                        None
                    }
                } else {
                    None
                }
            } else {
                match esc_code(s[i + 1]) {
                    Some(c) => cons_parsed(c, parse_str_body(s, i + 2)),
                    None => None,
                }
            }
        } else {
            None
        }
    } else if (s[i] as u32) >= 32 {
        cons_parsed(s[i], parse_str_body(s, i + 1))
    } else {
        None
    }
}

/// A quoted string starting at `i`.
pub open spec fn parse_string(s: Seq<char>, i: int) -> Option<(Seq<char>, int)> {
    if 0 <= i < s.len() && s[i] == '"' {
        parse_str_body(s, i + 1)
    } else {
        None
    }
}

pub proof fn lemma_parse_str_body_bounds(s: Seq<char>, i: int)
    ensures
        parse_str_body(s, i) matches Some((t, j)) ==> i < j <= s.len(),
    decreases s.len() - i,
{
    if 0 <= i < s.len() {
        lemma_parse_str_body_bounds(s, i + 1);
        if i + 2 <= s.len() {
            lemma_parse_str_body_bounds(s, i + 2);
        }
        if i + 6 <= s.len() {
            lemma_parse_str_body_bounds(s, i + 6);
        }
    }
}

pub proof fn lemma_parse_string_bounds(s: Seq<char>, i: int)
    ensures
        parse_string(s, i) matches Some((t, j)) ==> i < j <= s.len(),
{
    lemma_parse_str_body_bounds(s, i + 1);
}

// ---------------------------------------------------------------------------
// Integer and number payloads
// ---------------------------------------------------------------------------

/// The value of the digit run `[a, b)` of `s`.
pub open spec fn digits_val(s: Seq<char>, a: int, b: int) -> int
    decreases b - a,
{
    if b <= a {
        0
    } else {
        digits_val(s, a, b - 1) * 10 + digit_val(s[b - 1])
    }
}

pub proof fn lemma_digits_val_nonneg(s: Seq<char>, a: int, b: int)
    requires
        a <= b,
        forall|k: int| a <= k < b ==> is_digit(#[trigger] s[k]),
    ensures
        digits_val(s, a, b) >= 0,
    decreases b - a,
{
    if b > a {
        lemma_digits_val_nonneg(s, a, b - 1);
    }
}

pub proof fn lemma_digits_val_mono(s: Seq<char>, a: int, b: int, c: int)
    requires
        a <= b <= c,
        forall|k: int| a <= k < c ==> is_digit(#[trigger] s[k]),
    ensures
        digits_val(s, a, b) <= digits_val(s, a, c),
    decreases c - b,
{
    if c > b {
        lemma_digits_val_mono(s, a, b, c - 1);
        lemma_digits_val_nonneg(s, a, c - 1);
    }
}

/// A signed decimal integer that fits `i32`.
pub open spec fn parse_int(s: Seq<char>, i: int) -> Option<(int, int)> {
    let i0 = if 0 <= i < s.len() && s[i] == '-' { i + 1 } else { i };
    let j = digits_end(s, i0);
    if j > i0 {
        let n = digits_val(s, i0, j);
        let v = if i0 > i { -n } else { n };
        if i32::MIN <= v <= i32::MAX {
            Some((v, j))
        } else {
            None
        }
    } else {
        None
    }
}

/// A number literal: the longest run of number characters, kept as text,
/// which must have the shape of a decimal literal.
pub open spec fn parse_number(s: Seq<char>, i: int) -> Option<(Seq<char>, int)> {
    let j = num_end(s, i);
    if j > i && is_number_lit(s.subrange(i, j)) {
        Some((s.subrange(i, j), j))
    } else {
        None
    }
}

pub proof fn lemma_parse_int_bounds(s: Seq<char>, i: int)
    ensures
        parse_int(s, i) matches Some((v, j)) ==> i < j <= s.len(),
{
    let i0 = if 0 <= i < s.len() && s[i] == '-' { i + 1 } else { i };
    let j = digits_end(s, i0);
    if j > i0 {
        assert(0 <= i0 < s.len());
        lemma_run_end(s, i0, |c: char| is_digit(c));
    }
}

pub proof fn lemma_parse_number_bounds(s: Seq<char>, i: int)
    ensures
        parse_number(s, i) matches Some((t, j)) ==> i < j <= s.len(),
{
    let j = num_end(s, i);
    if j > i {
        assert(0 <= i < s.len());
        lemma_run_end(s, i, |c: char| is_num_char(c));
    }
}

/// Whitespace then the closing brace of a tagged object.
pub open spec fn close_tagged(s: Seq<char>, j: int, v: SpecValue) -> Option<(SpecValue, int)> {
    let jz = skip_ws(s, j);
    if 0 <= jz < s.len() && s[jz] == '}' {
        Some((v, jz + 1))
    } else {
        None
    }
}

// ---------------------------------------------------------------------------
// Tagged values
// ---------------------------------------------------------------------------

/// A tagged value: a one-member object whose key must be one of the five
/// recognized tags and whose value is the payload of that variant.
pub open spec fn parse_value(s: Seq<char>, i: int) -> Option<(SpecValue, int)>
    decreases s.len() - i, 0int,
{
    if !(0 <= i < s.len() && s[i] == '{') {
        None
    } else {
        match parse_string(s, skip_ws(s, i + 1)) {
            None => None,
            Some((tag, jt)) => {
                let jc = skip_ws(s, jt);
                if !(0 <= jc < s.len() && s[jc] == ':') {
                    None
                } else {
                    let jp = skip_ws(s, jc + 1);
                    if tag == tag_int() {
                        match parse_int(s, jp) {
                            None => None,
                            Some((n, je)) => close_tagged(s, je, SpecValue::Integer(n)),
                        }
                    } else if tag == tag_float() {
                        match parse_number(s, jp) {
                            None => None,
                            Some((t, je)) => close_tagged(s, je, SpecValue::Float(t)),
                        }
                    } else if tag == tag_text() {
                        match parse_string(s, jp) {
                            None => None,
                            Some((t, je)) => close_tagged(s, je, SpecValue::Text(t)),
                        }
                    } else if tag == tag_map() {
                        if 0 <= jp < s.len() && s[jp] == '{' {
                            let jm = skip_ws(s, jp + 1);
                            if i < jm && jm <= s.len() {
                                match parse_members(s, jm) {
                                    None => None,
                                    Some((ps, je)) => close_tagged(s, je, SpecValue::Mapping(ps)),
                                }
                            } else {
                                None
                            }
                        } else {
                            None
                        }
                    } else if tag == tag_list() {
                        if 0 <= jp < s.len() && s[jp] == '[' {
                            let jm = skip_ws(s, jp + 1);
                            if i < jm && jm <= s.len() {
                                match parse_elems(s, jm) {
                                    None => None,
                                    Some((vs, je)) => close_tagged(s, je, SpecValue::List(vs)),
                                }
                            } else {
                                None
                            }
                        } else {
                            None
                        }
                    } else {
                        None
                    }
                }
            }
        }
    }
}

/// The members of a mapping payload, after its opening brace: empty, or
/// comma-separated key/value pairs, ending at the closing brace.
pub open spec fn parse_members(s: Seq<char>, i: int) -> Option<(Seq<(Seq<char>, SpecValue)>, int)>
    decreases s.len() - i, 2int,
{
    if 0 <= i < s.len() && s[i] == '}' {
        Some((Seq::empty(), i + 1))
    } else {
        parse_pairs(s, i)
    }
}

/// Does some pair of `ps` carry the key `key`?
pub open spec fn has_key(ps: Seq<(Seq<char>, SpecValue)>, key: Seq<char>) -> bool {
    exists|x: int| 0 <= x < ps.len() && (#[trigger] ps[x]).0 == key
}

/// No key of `a` occurs among the pairs of `b`.
pub open spec fn keys_disjoint(
    a: Seq<(Seq<char>, SpecValue)>,
    b: Seq<(Seq<char>, SpecValue)>,
) -> bool {
    forall|x: int| 0 <= x < a.len() ==> !has_key(b, (#[trigger] a[x]).0)
}

/// One or more comma-separated key/value pairs, ending at a closing brace.
/// A key may not repeat: a pair whose key occurs again later does not parse.
pub open spec fn parse_pairs(s: Seq<char>, i: int) -> Option<(Seq<(Seq<char>, SpecValue)>, int)>
    decreases s.len() - i, 1int,
{
    match parse_string(s, i) {
        None => None,
        Some((key, jk)) => {
            let jc = skip_ws(s, jk);
            if !(0 <= jc < s.len() && s[jc] == ':') {
                None
            } else {
                let jv = skip_ws(s, jc + 1);
                if i < jv && jv <= s.len() {
                    match parse_value(s, jv) {
                        None => None,
                        Some((v, je)) => {
                            let jn = skip_ws(s, je);
                            if 0 <= jn < s.len() && s[jn] == ',' {
                                let jm = skip_ws(s, jn + 1);
                                if i < jm && jm <= s.len() {
                                    match parse_pairs(s, jm) {
                                        None => None,
                                        Some((rest, jz)) => if has_key(rest, key) {
                                            None
                                        } else {
                                            Some((seq![(key, v)] + rest, jz))
                                        },
                                    }
                                } else {
                                    None
                                }
                            } else if 0 <= jn < s.len() && s[jn] == '}' {
                                Some((seq![(key, v)], jn + 1))
                            } else {
                                None
                            }
                        },
                    }
                } else {
                    None
                }
            }
        },
    }
}

/// The elements of a list payload, after its opening bracket: empty, or
/// comma-separated values, ending at the closing bracket.
pub open spec fn parse_elems(s: Seq<char>, i: int) -> Option<(Seq<SpecValue>, int)>
    decreases s.len() - i, 2int,
{
    if 0 <= i < s.len() && s[i] == ']' {
        Some((Seq::empty(), i + 1))
    } else {
        parse_items(s, i)
    }
}

/// One or more comma-separated values, ending at a closing bracket.
pub open spec fn parse_items(s: Seq<char>, i: int) -> Option<(Seq<SpecValue>, int)>
    decreases s.len() - i, 1int,
{
    if i < s.len() {
        match parse_value(s, i) {
            None => None,
            Some((v, je)) => {
                let jn = skip_ws(s, je);
                if 0 <= jn < s.len() && s[jn] == ',' {
                    let jm = skip_ws(s, jn + 1);
                    if i < jm && jm <= s.len() {
                        match parse_items(s, jm) {
                            None => None,
                            Some((rest, jz)) => Some((seq![v] + rest, jz)),
                        }
                    } else {
                        None
                    }
                } else if 0 <= jn < s.len() && s[jn] == ']' {
                    Some((seq![v], jn + 1))
                } else {
                    None
                }
            },
        }
    } else {
        None
    }
}

// ---------------------------------------------------------------------------
// Bounds: a successful parse consumes at least one character and stays
// within the text.
// ---------------------------------------------------------------------------

pub proof fn lemma_parse_value_bounds(s: Seq<char>, i: int)
    ensures
        parse_value(s, i) matches Some((v, j)) ==> i < j <= s.len(),
    decreases s.len() - i, 0int,
{
    if 0 <= i < s.len() && s[i] == '{' {
        lemma_skip_ws_bounds(s, i + 1);
        lemma_parse_string_bounds(s, skip_ws(s, i + 1));
        match parse_string(s, skip_ws(s, i + 1)) {
            None => {},
            Some((tag, jt)) => {
                lemma_skip_ws_bounds(s, jt);
                let jc = skip_ws(s, jt);
                if 0 <= jc < s.len() && s[jc] == ':' {
                    lemma_skip_ws_bounds(s, jc + 1);
                    let jp = skip_ws(s, jc + 1);
                    lemma_parse_int_bounds(s, jp);
                    lemma_parse_number_bounds(s, jp);
                    lemma_parse_string_bounds(s, jp);
                    match parse_int(s, jp) {
                        Some((n, je)) => lemma_skip_ws_bounds(s, je),
                        None => {},
                    }
                    match parse_number(s, jp) {
                        Some((t, je)) => lemma_skip_ws_bounds(s, je),
                        None => {},
                    }
                    match parse_string(s, jp) {
                        Some((t, je)) => lemma_skip_ws_bounds(s, je),
                        None => {},
                    }
                    if 0 <= jp < s.len() && (s[jp] == '{' || s[jp] == '[') {
                        lemma_skip_ws_bounds(s, jp + 1);
                        let jm = skip_ws(s, jp + 1);
                        if i < jm && jm <= s.len() {
                            lemma_parse_members_bounds(s, jm);
                            lemma_parse_elems_bounds(s, jm);
                            match parse_members(s, jm) {
                                Some((ps, je)) => lemma_skip_ws_bounds(s, je),
                                None => {},
                            }
                            match parse_elems(s, jm) {
                                Some((vs, je)) => lemma_skip_ws_bounds(s, je),
                                None => {},
                            }
                        }
                    }
                }
            },
        }
    }
}

pub proof fn lemma_parse_members_bounds(s: Seq<char>, i: int)
    ensures
        parse_members(s, i) matches Some((ps, j)) ==> i < j <= s.len(),
    decreases s.len() - i, 2int,
{
    if !(0 <= i < s.len() && s[i] == '}') {
        lemma_parse_pairs_bounds(s, i);
    }
}

pub proof fn lemma_parse_pairs_bounds(s: Seq<char>, i: int)
    ensures
        parse_pairs(s, i) matches Some((ps, j)) ==> i < j <= s.len(),
    decreases s.len() - i, 1int,
{
    lemma_parse_string_bounds(s, i);
    match parse_string(s, i) {
        None => {},
        Some((key, jk)) => {
            lemma_skip_ws_bounds(s, jk);
            let jc = skip_ws(s, jk);
            if 0 <= jc < s.len() && s[jc] == ':' {
                lemma_skip_ws_bounds(s, jc + 1);
                let jv = skip_ws(s, jc + 1);
                if i < jv && jv <= s.len() {
                    lemma_parse_value_bounds(s, jv);
                    match parse_value(s, jv) {
                        None => {},
                        Some((v, je)) => {
                            lemma_skip_ws_bounds(s, je);
                            let jn = skip_ws(s, je);
                            if 0 <= jn < s.len() && s[jn] == ',' {
                                let jm = skip_ws(s, jn + 1);
                                if i < jm && jm <= s.len() {
                                    lemma_parse_pairs_bounds(s, jm);
                                }
                            }
                        },
                    }
                }
            }
        },
    }
}

pub proof fn lemma_parse_elems_bounds(s: Seq<char>, i: int)
    ensures
        parse_elems(s, i) matches Some((vs, j)) ==> i < j <= s.len(),
    decreases s.len() - i, 2int,
{
    if !(0 <= i < s.len() && s[i] == ']') {
        lemma_parse_items_bounds(s, i);
    }
}

pub proof fn lemma_parse_items_bounds(s: Seq<char>, i: int)
    ensures
        parse_items(s, i) matches Some((vs, j)) ==> i < j <= s.len(),
    decreases s.len() - i, 1int,
{
    if i < s.len() {
        lemma_parse_value_bounds(s, i);
        match parse_value(s, i) {
            None => {},
            Some((v, je)) => {
                lemma_skip_ws_bounds(s, je);
                let jn = skip_ws(s, je);
                if 0 <= jn < s.len() && s[jn] == ',' {
                    let jm = skip_ws(s, jn + 1);
                    if i < jm && jm <= s.len() {
                        lemma_parse_items_bounds(s, jm);
                    }
                }
            },
        }
    }
}

// ---------------------------------------------------------------------------
// Soundness: whatever parses is well-formed.  In particular, every mapping
// in a parsed value has pairwise-distinct keys.
// ---------------------------------------------------------------------------

pub proof fn lemma_parse_value_wf(s: Seq<char>, i: int)
    ensures
        parse_value(s, i) matches Some((v, j)) ==> wf_value(v),
    decreases s.len() - i, 0int,
{
    if 0 <= i < s.len() && s[i] == '{' {
        match parse_string(s, skip_ws(s, i + 1)) {
            None => {},
            Some((tag, jt)) => {
                let jc = skip_ws(s, jt);
                if 0 <= jc < s.len() && s[jc] == ':' {
                    let jp = skip_ws(s, jc + 1);
                    if 0 <= jp < s.len() && (s[jp] == '{' || s[jp] == '[') {
                        let jm = skip_ws(s, jp + 1);
                        if i < jm && jm <= s.len() {
                            lemma_parse_members_wf(s, jm);
                            lemma_parse_elems_wf(s, jm);
                        }
                    }
                }
            },
        }
    }
}

pub proof fn lemma_parse_members_wf(s: Seq<char>, i: int)
    ensures
        parse_members(s, i) matches Some((ps, j)) ==> distinct_keys(ps) && (forall|x: int|
            0 <= x < ps.len() ==> wf_value((#[trigger] ps[x]).1)),
    decreases s.len() - i, 2int,
{
    if !(0 <= i < s.len() && s[i] == '}') {
        lemma_parse_pairs_wf(s, i);
    }
}

pub proof fn lemma_parse_pairs_wf(s: Seq<char>, i: int)
    ensures
        parse_pairs(s, i) matches Some((ps, j)) ==> distinct_keys(ps) && (forall|x: int|
            0 <= x < ps.len() ==> wf_value((#[trigger] ps[x]).1)),
    decreases s.len() - i, 1int,
{
    match parse_string(s, i) {
        None => {},
        Some((key, jk)) => {
            let jc = skip_ws(s, jk);
            if 0 <= jc < s.len() && s[jc] == ':' {
                let jv = skip_ws(s, jc + 1);
                if i < jv && jv <= s.len() {
                    lemma_parse_value_wf(s, jv);
                    match parse_value(s, jv) {
                        None => {},
                        Some((v, je)) => {
                            let jn = skip_ws(s, je);
                            if 0 <= jn < s.len() && s[jn] == ',' {
                                let jm = skip_ws(s, jn + 1);
                                if i < jm && jm <= s.len() {
                                    lemma_parse_pairs_wf(s, jm);
                                    match parse_pairs(s, jm) {
                                        None => {},
                                        Some((rest, jz)) => {
                                            if !has_key(rest, key) {
                                                let cons = seq![(key, v)] + rest;
                                                assert forall|a: int, b: int|
                                                    0 <= a < b < cons.len() implies (
                                                #[trigger] cons[a]).0 != (#[trigger] cons[b]).0 by {
                                                    if a == 0 {
                                                        assert(cons[b] == rest[b - 1]);
                                                        assert(rest[b - 1].0 != key);
                                                    } else {
                                                        assert(cons[a] == rest[a - 1]);
                                                        assert(cons[b] == rest[b - 1]);
                                                    }
                                                };
                                                assert forall|x: int|
                                                    0 <= x < cons.len() implies wf_value(
                                                    (#[trigger] cons[x]).1,
                                                ) by {
                                                    if x > 0 {
                                                        assert(cons[x] == rest[x - 1]);
                                                    }
                                                };
                                                assert(distinct_keys(cons));
                                            }
                                        },
                                    }
                                }
                            } else if 0 <= jn < s.len() && s[jn] == '}' {
                                let single = seq![(key, v)];
                                assert(distinct_keys(single));
                                assert(forall|x: int|
                                    0 <= x < single.len() ==> wf_value((#[trigger] single[x]).1));
                            }
                        },
                    }
                }
            }
        },
    }
}

pub proof fn lemma_parse_elems_wf(s: Seq<char>, i: int)
    ensures
        parse_elems(s, i) matches Some((vs, j)) ==> forall|x: int|
            0 <= x < vs.len() ==> wf_value(#[trigger] vs[x]),
    decreases s.len() - i, 2int,
{
    if !(0 <= i < s.len() && s[i] == ']') {
        lemma_parse_items_wf(s, i);
    }
}

pub proof fn lemma_parse_items_wf(s: Seq<char>, i: int)
    ensures
        parse_items(s, i) matches Some((vs, j)) ==> forall|x: int|
            0 <= x < vs.len() ==> wf_value(#[trigger] vs[x]),
    decreases s.len() - i, 1int,
{
    if i < s.len() {
        lemma_parse_value_wf(s, i);
        match parse_value(s, i) {
            None => {},
            Some((v, je)) => {
                let jn = skip_ws(s, je);
                if 0 <= jn < s.len() && s[jn] == ',' {
                    let jm = skip_ws(s, jn + 1);
                    if i < jm && jm <= s.len() {
                        lemma_parse_items_wf(s, jm);
                        match parse_items(s, jm) {
                            None => {},
                            Some((rest, jz)) => {
                                let cons = seq![v] + rest;
                                assert forall|x: int| 0 <= x < cons.len() implies wf_value(
                                    #[trigger] cons[x],
                                ) by {
                                    if x > 0 {
                                        assert(cons[x] == rest[x - 1]);
                                    }
                                };
                            },
                        }
                    }
                }
            },
        }
    }
}

pub proof fn lemma_parse_value_member_wf(s: Seq<char>, i: int)
    ensures
        parse_value_member(s, i) matches Some((v, j)) ==> wf_value(v),
{
    match parse_string(s, i) {
        None => {},
        Some((key, jk)) => {
            if key == value_key() {
                let jc = skip_ws(s, jk);
                if 0 <= jc < s.len() && s[jc] == ':' {
                    lemma_parse_value_wf(s, skip_ws(s, jc + 1));
                }
            }
        },
    }
}

/// Whatever decodes is well-formed: in particular, every mapping anywhere in
/// the decoded record has pairwise-distinct keys.
pub proof fn lemma_parse_record_wf(s: Seq<char>)
    ensures
        parse_record(s) matches Some(m) ==> wf_record(m),
{
    let i0 = skip_ws(s, 0);
    if 0 <= i0 < s.len() && s[i0] == '{' {
        let i1 = skip_ws(s, i0 + 1);
        match parse_field_member(s, i1) {
            Some((f, j1)) => {
                let jn = skip_ws(s, j1);
                if 0 <= jn < s.len() && s[jn] == ',' {
                    lemma_parse_value_member_wf(s, skip_ws(s, jn + 1));
                }
            },
            None => {
                lemma_parse_value_member_wf(s, i1);
            },
        }
    }
}

// ---------------------------------------------------------------------------
// Records
// ---------------------------------------------------------------------------

/// The member `"field": <string>` starting at `i`.
pub open spec fn parse_field_member(s: Seq<char>, i: int) -> Option<(Seq<char>, int)> {
    match parse_string(s, i) {
        None => None,
        Some((key, jk)) => {
            if key == field_key() {
                let jc = skip_ws(s, jk);
                if 0 <= jc < s.len() && s[jc] == ':' {
                    parse_string(s, skip_ws(s, jc + 1))
                } else {
                    None
                }
            } else {
                None
            }
        },
    }
}

/// The member `"value": <tagged value>` starting at `i`.
pub open spec fn parse_value_member(s: Seq<char>, i: int) -> Option<(SpecValue, int)> {
    match parse_string(s, i) {
        None => None,
        Some((key, jk)) => {
            if key == value_key() {
                let jc = skip_ws(s, jk);
                if 0 <= jc < s.len() && s[jc] == ':' {
                    parse_value(s, skip_ws(s, jc + 1))
                } else {
                    None
                }
            } else {
                None
            }
        },
    }
}

/// A whole record: an object holding exactly the members `field` and
/// `value`, in either order, and nothing after it but whitespace.
pub open spec fn parse_record(s: Seq<char>) -> Option<SpecRecord> {
    let i0 = skip_ws(s, 0);
    if !(0 <= i0 < s.len() && s[i0] == '{') {
        None
    } else {
        let i1 = skip_ws(s, i0 + 1);
        match parse_field_member(s, i1) {
            Some((f, j1)) => {
                let jn = skip_ws(s, j1);
                if 0 <= jn < s.len() && s[jn] == ',' {
                    match parse_value_member(s, skip_ws(s, jn + 1)) {
                        None => None,
                        Some((v, j2)) => {
                            let jz = skip_ws(s, j2);
                            if 0 <= jz < s.len() && s[jz] == '}' && skip_ws(s, jz + 1)
                                == s.len() {
                                Some(SpecRecord { field: f, value: v })
                            } else {
                                None
                            }
                        },
                    }
                } else {
                    None
                }
            },
            None => match parse_value_member(s, i1) {
                None => None,
                Some((v, j1)) => {
                    let jn = skip_ws(s, j1);
                    if 0 <= jn < s.len() && s[jn] == ',' {
                        match parse_field_member(s, skip_ws(s, jn + 1)) {
                            None => None,
                            Some((f, j2)) => {
                                let jz = skip_ws(s, j2);
                                if 0 <= jz < s.len() && s[jz] == '}' && skip_ws(s, jz + 1)
                                    == s.len() {
                                    Some(SpecRecord { field: f, value: v })
                                } else {
                                    None
                                }
                            },
                        }
                    } else {
                        None
                    }
                },
            },
        }
    }
}

} // verus!
