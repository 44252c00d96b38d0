//! The executable parser: reads the serialization grammar exactly as
//! `parsing` states it, position for position.
use vstd::prelude::*;
use vstd::string::StringExecFns;
use crate::model::{DecodeError, JsonStruct, SpecValue, ValueTypes};
use crate::model::{lemma_view_list_push, lemma_view_pairs_push, view_list, view_pairs, view_value};
use crate::model::lemma_view_pairs_index;
use crate::grammar::{field_key, tag_float, tag_int, tag_list, tag_map, tag_text, value_key};
use crate::parsing::{
    close_tagged, digits_val, esc_code, has_key, keys_disjoint, lemma_digits_val_mono,
    lemma_parse_members_bounds, lemma_parse_elems_bounds, lemma_parse_str_body_bounds,
    lemma_parse_value_bounds, parse_field_member, parse_int, parse_members, parse_number,
    parse_pairs, parse_record, parse_str_body, parse_string, parse_value, parse_value_member,
    parse_elems, parse_items,
};
use crate::text::{
    char_from_code, chars_to_string, digits_run, eq_str, hex_p, hex_value, num_run, check_number,
    ws_run,
};

verus! {

// How each executable result mirrors the specification parser's result.
pub open spec fn str_res(
    res: Option<(Seq<char>, int)>,
    r: Result<(String, usize), DecodeError>,
) -> bool {
    match (res, r) {
        (Some((t, j)), Ok(p)) => p.0@ == t && p.1 as int == j,
        (None, Err(_)) => true,
        _ => false,
    }
}

pub open spec fn int_res(res: Option<(int, int)>, r: Result<(i32, usize), DecodeError>) -> bool {
    match (res, r) {
        (Some((v, j)), Ok(p)) => p.0 as int == v && p.1 as int == j,
        (None, Err(_)) => true,
        _ => false,
    }
}

pub open spec fn value_res(
    res: Option<(SpecValue, int)>,
    r: Result<(ValueTypes, usize), DecodeError>,
) -> bool {
    match (res, r) {
        (Some((v, j)), Ok(p)) => p.0@ == v && p.1 as int == j,
        (None, Err(_)) => true,
        _ => false,
    }
}

pub open spec fn members_res(
    res: Option<(Seq<(Seq<char>, SpecValue)>, int)>,
    r: Result<(Vec<(String, ValueTypes)>, usize), DecodeError>,
) -> bool {
    match (res, r) {
        (Some((ps, j)), Ok(p)) => view_pairs(p.0@) == ps && p.1 as int == j,
        (None, Err(_)) => true,
        _ => false,
    }
}

pub open spec fn elems_res(
    res: Option<(Seq<SpecValue>, int)>,
    r: Result<(Vec<ValueTypes>, usize), DecodeError>,
) -> bool {
    match (res, r) {
        (Some((vs, j)), Ok(p)) => view_list(p.0@) == vs && p.1 as int == j,
        (None, Err(_)) => true,
        _ => false,
    }
}

/// A quoted string with its escapes decoded.
#[verifier::loop_isolation(false)]
#[verifier::rlimit(100)]
fn parse_string_exec(s: &Vec<char>, i: usize) -> (r: Result<(String, usize), DecodeError>)
    requires
        i <= s@.len(),
    ensures
        str_res(parse_string(s@, i as int), r),
        r matches Ok(p) ==> i < p.1 <= s@.len(),
{
    if !(i < s.len() && s[i] == '"') {
        return Err(DecodeError);
    }
    let mut acc: Vec<char> = Vec::new();
    let mut j: usize = i + 1;
    loop
        invariant
            i + 1 <= j <= s@.len(),
            (match parse_str_body(s@, j as int) {
                Some((t, jj)) => parse_str_body(s@, (i + 1) as int) == Some((acc@ + t, jj)),
                None => parse_str_body(s@, (i + 1) as int) is None,
            }),
        decreases s@.len() - j,
    {
        proof {
            lemma_parse_str_body_bounds(s@, (i + 1) as int);
        }
        if j == s.len() {
            return Err(DecodeError);
        }
        let c = s[j];
        if c == '"' {
            proof {
                assert(acc@ + Seq::<char>::empty() =~= acc@);
            }
            return Ok((chars_to_string(&acc), j + 1));
        } else if c == '\\' {
            if j + 1 == s.len() {
                return Err(DecodeError);
            }
            let c2 = s[j + 1];
            if c2 == 'u' {
                if s.len() - j < 6 {
                    return Err(DecodeError);
                }
                if !(hex_p(s[j + 2]) && hex_p(s[j + 3]) && hex_p(s[j + 4]) && hex_p(s[j + 5])) {
                    return Err(DecodeError);
                }
                let x: u32 = hex_value(s[j + 2]) * 4096 + hex_value(s[j + 3]) * 256 + hex_value(
                    s[j + 4],
                ) * 16 + hex_value(s[j + 5]);
                if !(x < 0xD800 || x >= 0xE000) {
                    return Err(DecodeError);
                }
                let c3 = char_from_code(x);
                proof {
                    vstd::utf8::char_u32_cast(c3, x);
                    let ghost res6 = parse_str_body(s@, (j + 6) as int);
                    match res6 {
                        Some((t, jj)) => {
                            assert(acc@ + (seq![c3] + t) =~= acc@.push(c3) + t);
                        },
                        None => {},
                    }
                }
                acc.push(c3);
                j = j + 6;
            } else {
                let dec: char = if c2 == '"' { '"' } else if c2 == '\\' { '\\' } else if c2 == '/' {
                    '/'
                } else if c2 == 'b' { '\u{0008}' } else if c2 == 'f' { '\u{000c}' } else if c2
                    == 'n' { '\n' } else if c2 == 'r' { '\r' } else if c2 == 't' { '\t' } else {
                    return Err(DecodeError);
                };
                proof {
                    assert(esc_code(c2) == Some(dec));
                    let ghost res2 = parse_str_body(s@, (j + 2) as int);
                    match res2 {
                        Some((t, jj)) => {
                            assert(acc@ + (seq![dec] + t) =~= acc@.push(dec) + t);
                        },
                        None => {},
                    }
                }
                acc.push(dec);
                j = j + 2;
            }
        } else if c as u32 >= 32 {
            proof {
                let ghost res1 = parse_str_body(s@, (j + 1) as int);
                match res1 {
                    Some((t, jj)) => {
                        assert(acc@ + (seq![c] + t) =~= acc@.push(c) + t);
                    },
                    None => {},
                }
            }
            acc.push(c);
            j = j + 1;
        } else {
            return Err(DecodeError);
        }
    }
}

/// A signed decimal integer payload that must fit `i32`.
#[verifier::loop_isolation(false)]
fn parse_int_exec(s: &Vec<char>, i: usize) -> (r: Result<(i32, usize), DecodeError>)
    requires
        i <= s@.len(),
    ensures
        int_res(parse_int(s@, i as int), r),
        r matches Ok(p) ==> i < p.1 <= s@.len(),
{
    let neg = i < s.len() && s[i] == '-';
    let i0: usize = if neg { i + 1 } else { i };
    let j0 = digits_run(s, i0);
    if j0 == i0 {
        return Err(DecodeError);
    }
    proof {
        crate::grammar::lemma_run_end(s@, i0 as int, |c: char| crate::grammar::is_digit(c));
    }
    let mut acc: i64 = 0;
    let mut k: usize = i0;
    while k < j0
        invariant
            i0 <= k <= j0,
            0 <= acc <= 2147483648,
            acc == digits_val(s@, i0 as int, k as int),
        decreases j0 - k,
    {
        let u = s[k] as u32;
        let d: i64 = (u - 48) as i64;
        proof {
            assert(d == crate::grammar::digit_val(s@[k as int]));
        }
        acc = acc * 10 + d;
        k = k + 1;
        if acc > 2147483648 {
            proof {
                lemma_digits_val_mono(s@, i0 as int, k as int, j0 as int);
            }
            return Err(DecodeError);
        }
    }
    if neg {
        let vv: i64 = -acc;
        Ok((vv as i32, j0))
    } else {
        if acc > 2147483647 {
            return Err(DecodeError);
        }
        Ok((acc as i32, j0))
    }
}

/// A number payload, kept as its literal text.
fn parse_number_exec(s: &Vec<char>, i: usize) -> (r: Result<(String, usize), DecodeError>)
    requires
        i <= s@.len(),
    ensures
        str_res(parse_number(s@, i as int), r),
        r matches Ok(p) ==> i < p.1 <= s@.len(),
{
    let j = num_run(s, i);
    if j == i {
        return Err(DecodeError);
    }
    let mut tok: Vec<char> = Vec::new();
    let mut k: usize = i;
    while k < j
        invariant
            i <= k <= j <= s@.len(),
            tok@ == s@.subrange(i as int, k as int),
        decreases j - k,
    {
        tok.push(s[k]);
        proof {
            assert(s@.subrange(i as int, (k + 1) as int) =~= s@.subrange(i as int, k as int).push(
                s@[k as int],
            ));
        }
        k = k + 1;
    }
    if check_number(&tok) {
        Ok((chars_to_string(&tok), j))
    } else {
        Err(DecodeError)
    }
}

/// Whitespace and the closing brace of a tagged object.
fn close_brace(s: &Vec<char>, j: usize) -> (r: Result<usize, DecodeError>)
    requires
        j <= s@.len(),
    ensures
        r matches Ok(jz) ==> (j <= jz <= s@.len() && (forall|v: SpecValue|
            close_tagged(s@, j as int, v) == Some((v, jz as int)))),
        r is Err ==> (forall|v: SpecValue| close_tagged(s@, j as int, v) is None),
{
    let jz = ws_run(s, j);
    if jz < s.len() && s[jz] == '}' {
        Ok(jz + 1)
    } else {
        Err(DecodeError)
    }
}

/// A tagged value: dispatches on the tag and reads the matching payload.
#[verifier::loop_isolation(false)]
#[verifier::rlimit(100)]
pub(crate) fn parse_value_exec(s: &Vec<char>, i: usize) -> (r: Result<
    (ValueTypes, usize),
    DecodeError,
>)
    requires
        i <= s@.len(),
    ensures
        value_res(parse_value(s@, i as int), r),
        r matches Ok(p) ==> i < p.1 <= s@.len(),
    decreases s@.len() - i, 0int,
{
    proof {
        lemma_parse_value_bounds(s@, i as int);
    }
    if !(i < s.len() && s[i] == '{') {
        return Err(DecodeError);
    }
    let it = ws_run(s, i + 1);
    let (tag, jt) = match parse_string_exec(s, it) {
        Ok(p) => p,
        Err(e) => {
            return Err(e);
        },
    };
    let jc = ws_run(s, jt);
    if !(jc < s.len() && s[jc] == ':') {
        return Err(DecodeError);
    }
    let jp = ws_run(s, jc + 1);
    if eq_str(&tag, "Int") {
        proof {
            reveal_strlit("Int");
            assert(tag@ =~= tag_int());
        }
        match parse_int_exec(s, jp) {
            Err(e) => Err(e),
            Ok((n, je)) => {
                match close_brace(s, je) {
                    Err(e) => Err(e),
                    Ok(jz) => Ok((ValueTypes::Integer(n), jz)),
                }
            },
        }
    } else if eq_str(&tag, "Float") {
        proof {
            reveal_strlit("Float");
            reveal_strlit("Int");
            assert(tag@ =~= tag_float());
            assert(tag@ != tag_int());
        }
        match parse_number_exec(s, jp) {
            Err(e) => Err(e),
            Ok((t, je)) => {
                match close_brace(s, je) {
                    Err(e) => Err(e),
                    Ok(jz) => Ok((ValueTypes::Float(t), jz)),
                }
            },
        }
    } else if eq_str(&tag, "Text") {
        proof {
            reveal_strlit("Text");
            reveal_strlit("Float");
            reveal_strlit("Int");
            assert(tag@ =~= tag_text());
            assert(tag@ != tag_int() && tag@ != tag_float());
        }
        match parse_string_exec(s, jp) {
            Err(e) => Err(e),
            Ok((t, je)) => {
                match close_brace(s, je) {
                    Err(e) => Err(e),
                    Ok(jz) => Ok((ValueTypes::Text(t), jz)),
                }
            },
        }
    } else if eq_str(&tag, "Map") {
        proof {
            reveal_strlit("Map");
            reveal_strlit("Text");
            reveal_strlit("Float");
            reveal_strlit("Int");
            assert(tag@ =~= tag_map());
            assert(tag@ != tag_int() && tag@ != tag_float() && tag@ != tag_text());
        }
        if !(jp < s.len() && s[jp] == '{') {
            return Err(DecodeError);
        }
        let jm = ws_run(s, jp + 1);
        match parse_members_exec(s, jm) {
            Err(e) => Err(e),
            Ok((pv, je)) => {
                match close_brace(s, je) {
                    Err(e) => Err(e),
                    Ok(jz) => Ok((ValueTypes::Mapping(pv), jz)),
                }
            },
        }
    } else if eq_str(&tag, "List") {
        proof {
            reveal_strlit("List");
            reveal_strlit("Map");
            reveal_strlit("Text");
            reveal_strlit("Float");
            reveal_strlit("Int");
            assert(tag@ =~= tag_list());
            assert(tag@ != tag_int() && tag@ != tag_float() && tag@ != tag_text() && tag@
                != tag_map());
        }
        if !(jp < s.len() && s[jp] == '[') {
            return Err(DecodeError);
        }
        let jm = ws_run(s, jp + 1);
        match parse_elems_exec(s, jm) {
            Err(e) => Err(e),
            Ok((lv, je)) => {
                match close_brace(s, je) {
                    Err(e) => Err(e),
                    Ok(jz) => Ok((ValueTypes::List(lv), jz)),
                }
            },
        }
    } else {
        proof {
            reveal_strlit("List");
            reveal_strlit("Map");
            reveal_strlit("Text");
            reveal_strlit("Float");
            reveal_strlit("Int");
            assert("Int"@ =~= tag_int());
            assert("Float"@ =~= tag_float());
            assert("Text"@ =~= tag_text());
            assert("Map"@ =~= tag_map());
            assert("List"@ =~= tag_list());
            assert(tag@ != tag_int() && tag@ != tag_float() && tag@ != tag_text() && tag@
                != tag_map() && tag@ != tag_list());
        }
        Err(DecodeError)
    }
}

/// The members of a mapping payload, after its opening brace.  A repeated
/// key is a decode failure.
#[verifier::loop_isolation(false)]
#[verifier::rlimit(100)]
fn parse_members_exec(s: &Vec<char>, i: usize) -> (r: Result<
    (Vec<(String, ValueTypes)>, usize),
    DecodeError,
>)
    requires
        i <= s@.len(),
    ensures
        members_res(parse_members(s@, i as int), r),
        r matches Ok(p) ==> i < p.1 <= s@.len(),
    decreases s@.len() - i, 1int,
{
    proof {
        lemma_parse_members_bounds(s@, i as int);
    }
    if i < s.len() && s[i] == '}' {
        let empty: Vec<(String, ValueTypes)> = Vec::new();
        proof {
            assert(view_pairs(empty@) =~= Seq::<(Seq<char>, SpecValue)>::empty());
        }
        return Ok((empty, i + 1));
    }
    let mut acc: Vec<(String, ValueTypes)> = Vec::new();
    let mut j: usize = i;
    proof {
        assert(view_pairs(acc@) =~= Seq::<(Seq<char>, SpecValue)>::empty());
    }
    loop
        invariant
            i <= j <= s@.len(),
            (match parse_pairs(s@, j as int) {
                Some((rest, jj)) => {
                    if keys_disjoint(view_pairs(acc@), rest) {
                        parse_pairs(s@, i as int) == Some((view_pairs(acc@) + rest, jj))
                    } else {
                        parse_pairs(s@, i as int) is None
                    }
                },
                None => parse_pairs(s@, i as int) is None,
            }),
        decreases s@.len() - j,
    {
        proof {
            crate::parsing::lemma_parse_pairs_bounds(s@, j as int);
            lemma_view_pairs_index(acc@);
        }
        let (key, jk) = match parse_string_exec(s, j) {
            Ok(p) => p,
            Err(e) => {
                return Err(e);
            },
        };
        let jc = ws_run(s, jk);
        if !(jc < s.len() && s[jc] == ':') {
            return Err(DecodeError);
        }
        let jv = ws_run(s, jc + 1);
        let (val, je) = match parse_value_exec(s, jv) {
            Ok(p) => p,
            Err(e) => {
                return Err(e);
            },
        };
        let dup = crate::encode::key_seen(&acc, acc.len(), &key);
        let jn = ws_run(s, je);
        if jn < s.len() && s[jn] == ',' {
            let jm = ws_run(s, jn + 1);
            if dup {
                proof {
                    let m = view_pairs(acc@);
                    let x = choose|x: int|
                        0 <= x < acc@.len() && (#[trigger] acc@[x]).0@ == key@;
                    assert(m[x].0 == key@);
                    match parse_pairs(s@, jm as int) {
                        None => {},
                        Some((rest2, jz2)) => {
                            if !has_key(rest2, key@) {
                                let cons = seq![(key@, view_value(val))] + rest2;
                                assert(cons[0].0 == key@);
                                assert(has_key(cons, m[x].0));
                                assert(!keys_disjoint(m, cons));
                            }
                        },
                    }
                    assert(parse_pairs(s@, i as int) is None);
                }
                return Err(DecodeError);
            }
            proof {
                lemma_view_pairs_push(acc@, (key, val));
                lemma_view_pairs_index(acc@.push((key, val)));
                let m = view_pairs(acc@);
                let m2 = view_pairs(acc@.push((key, val)));
                assert(m2 == m + seq![(key@, view_value(val))]);
                assert(m2[m.len() as int].0 == key@);
                match parse_pairs(s@, jm as int) {
                    None => {
                        assert(parse_pairs(s@, j as int) is None);
                    },
                    Some((rest2, jz2)) => {
                        if keys_disjoint(m2, rest2) {
                            assert(!has_key(rest2, key@));
                            let cons = seq![(key@, view_value(val))] + rest2;
                            assert(parse_pairs(s@, j as int) == Some((cons, jz2)));
                            assert forall|x: int| 0 <= x < m.len() implies !has_key(
                                cons,
                                (#[trigger] m[x]).0,
                            ) by {
                                assert(m[x].0 == acc@[x].0@);
                                if has_key(cons, m[x].0) {
                                    let y = choose|y: int|
                                        0 <= y < cons.len() && (#[trigger] cons[y]).0 == m[x].0;
                                    if y == 0 {
                                        assert(m[x].0 == key@);
                                        assert(false);
                                    } else {
                                        assert(cons[y] == rest2[y - 1]);
                                        assert(has_key(rest2, m[x].0));
                                        assert(m2[x].0 == m[x].0);
                                        assert(false);
                                    }
                                }
                            };
                            assert(keys_disjoint(m, cons));
                            assert(parse_pairs(s@, i as int) == Some((m + cons, jz2)));
                            assert(m + cons =~= m2 + rest2);
                        } else {
                            let x2 = choose|x2: int|
                                0 <= x2 < m2.len() && has_key(rest2, (#[trigger] m2[x2]).0);
                            if has_key(rest2, key@) {
                                assert(parse_pairs(s@, j as int) is None);
                            } else {
                                let cons = seq![(key@, view_value(val))] + rest2;
                                assert(parse_pairs(s@, j as int) == Some((cons, jz2)));
                                assert(m2[x2].0 != key@);
                                assert(x2 < m.len());
                                assert(m[x2].0 == m2[x2].0);
                                let y = choose|y: int|
                                    0 <= y < rest2.len() && (#[trigger] rest2[y]).0 == m2[x2].0;
                                assert(cons[y + 1] == rest2[y]);
                                assert(has_key(cons, m[x2].0));
                                assert(!keys_disjoint(m, cons));
                                assert(parse_pairs(s@, i as int) is None);
                            }
                        }
                    },
                }
            }
            acc.push((key, val));
            j = jm;
        } else if jn < s.len() && s[jn] == '}' {
            if dup {
                proof {
                    let m = view_pairs(acc@);
                    let single = seq![(key@, view_value(val))];
                    assert(parse_pairs(s@, j as int) == Some((single, jn + 1 as int)));
                    let x = choose|x: int|
                        0 <= x < acc@.len() && (#[trigger] acc@[x]).0@ == key@;
                    assert(m[x].0 == key@);
                    assert(single[0].0 == key@);
                    assert(has_key(single, m[x].0));
                    assert(!keys_disjoint(m, single));
                    assert(parse_pairs(s@, i as int) is None);
                }
                return Err(DecodeError);
            }
            proof {
                lemma_view_pairs_push(acc@, (key, val));
                let m = view_pairs(acc@);
                let single = seq![(key@, view_value(val))];
                assert(parse_pairs(s@, j as int) == Some((single, jn + 1 as int)));
                assert forall|x: int| 0 <= x < m.len() implies !has_key(
                    single,
                    (#[trigger] m[x]).0,
                ) by {
                    assert(m[x].0 == acc@[x].0@);
                    if has_key(single, m[x].0) {
                        let y = choose|y: int|
                            0 <= y < single.len() && (#[trigger] single[y]).0 == m[x].0;
                        assert(y == 0);
                        assert(m[x].0 == key@);
                        assert(false);
                    }
                };
                assert(keys_disjoint(m, single));
                assert(parse_pairs(s@, i as int) == Some((m + single, jn + 1 as int)));
                assert(m + single =~= view_pairs(acc@.push((key, val))));
            }
            acc.push((key, val));
            return Ok((acc, jn + 1));
        } else {
            return Err(DecodeError);
        }
    }
}

/// The elements of a list payload, after its opening bracket.
#[verifier::loop_isolation(false)]
#[verifier::rlimit(100)]
fn parse_elems_exec(s: &Vec<char>, i: usize) -> (r: Result<(Vec<ValueTypes>, usize), DecodeError>)
    requires
        i <= s@.len(),
    ensures
        elems_res(parse_elems(s@, i as int), r),
        r matches Ok(p) ==> i < p.1 <= s@.len(),
    decreases s@.len() - i, 1int,
{
    proof {
        lemma_parse_elems_bounds(s@, i as int);
    }
    if i < s.len() && s[i] == ']' {
        let empty: Vec<ValueTypes> = Vec::new();
        proof {
            assert(view_list(empty@) =~= Seq::<SpecValue>::empty());
        }
        return Ok((empty, i + 1));
    }
    let mut acc: Vec<ValueTypes> = Vec::new();
    let mut j: usize = i;
    proof {
        assert(view_list(acc@) =~= Seq::<SpecValue>::empty());
    }
    loop
        invariant
            i <= j <= s@.len(),
            (match parse_items(s@, j as int) {
                Some((vs, jj)) => parse_items(s@, i as int) == Some((view_list(acc@) + vs, jj)),
                None => parse_items(s@, i as int) is None,
            }),
        decreases s@.len() - j,
    {
        proof {
            crate::parsing::lemma_parse_items_bounds(s@, j as int);
        }
        let (val, je) = match parse_value_exec(s, j) {
            Ok(p) => p,
            Err(e) => {
                return Err(e);
            },
        };
        let jn = ws_run(s, je);
        if jn < s.len() && s[jn] == ',' {
            let jm = ws_run(s, jn + 1);
            proof {
                lemma_view_list_push(acc@, val);
                let ghost resm = parse_items(s@, jm as int);
                match resm {
                    Some((rest, jz)) => {
                        assert(view_list(acc@) + (seq![view_value(val)] + rest) =~= view_list(
                            acc@.push(val),
                        ) + rest);
                    },
                    None => {},
                }
            }
            acc.push(val);
            j = jm;
        } else if jn < s.len() && s[jn] == ']' {
            proof {
                lemma_view_list_push(acc@, val);
                assert(view_list(acc@) + seq![view_value(val)] =~= view_list(acc@.push(val)));
            }
            acc.push(val);
            return Ok((acc, jn + 1));
        } else {
            return Err(DecodeError);
        }
    }
}

/// The member `"field": <string>`.
fn parse_field_member_exec(s: &Vec<char>, i: usize) -> (r: Result<(String, usize), DecodeError>)
    requires
        i <= s@.len(),
    ensures
        str_res(parse_field_member(s@, i as int), r),
        r matches Ok(p) ==> i < p.1 <= s@.len(),
{
    let (key, jk) = match parse_string_exec(s, i) {
        Ok(p) => p,
        Err(e) => {
            return Err(e);
        },
    };
    if !eq_str(&key, "field") {
        proof {
            reveal_strlit("field");
            assert("field"@ =~= field_key());
            assert(key@ != field_key());
        }
        return Err(DecodeError);
    }
    proof {
        reveal_strlit("field");
        assert(key@ =~= field_key());
    }
    let jc = ws_run(s, jk);
    if !(jc < s.len() && s[jc] == ':') {
        return Err(DecodeError);
    }
    let jp = ws_run(s, jc + 1);
    parse_string_exec(s, jp)
}

/// The member `"value": <tagged value>`.
fn parse_value_member_exec(s: &Vec<char>, i: usize) -> (r: Result<
    (ValueTypes, usize),
    DecodeError,
>)
    requires
        i <= s@.len(),
    ensures
        value_res(parse_value_member(s@, i as int), r),
        r matches Ok(p) ==> i < p.1 <= s@.len(),
{
    let (key, jk) = match parse_string_exec(s, i) {
        Ok(p) => p,
        Err(e) => {
            return Err(e);
        },
    };
    if !eq_str(&key, "value") {
        proof {
            reveal_strlit("value");
            assert("value"@ =~= value_key());
            assert(key@ != value_key());
        }
        return Err(DecodeError);
    }
    proof {
        reveal_strlit("value");
        assert(key@ =~= value_key());
    }
    let jc = ws_run(s, jk);
    if !(jc < s.len() && s[jc] == ':') {
        return Err(DecodeError);
    }
    let jp = ws_run(s, jc + 1);
    parse_value_exec(s, jp)
}

/// A whole record, with nothing after it but whitespace.
pub(crate) fn parse_record_exec(s: &Vec<char>) -> (r: Result<JsonStruct, DecodeError>)
    ensures
        (match parse_record(s@) {
            Some(m) => r matches Ok(rec) && rec@ == m,
            None => r is Err,
        }),
{
    let i0 = ws_run(s, 0);
    if !(i0 < s.len() && s[i0] == '{') {
        return Err(DecodeError);
    }
    let i1 = ws_run(s, i0 + 1);
    match parse_field_member_exec(s, i1) {
        Ok((f, j1)) => {
            let jn = ws_run(s, j1);
            if !(jn < s.len() && s[jn] == ',') {
                return Err(DecodeError);
            }
            let jp2 = ws_run(s, jn + 1);
            match parse_value_member_exec(s, jp2) {
                Err(e) => Err(e),
                Ok((v, j2)) => {
                    let jz = ws_run(s, j2);
                    if jz < s.len() && s[jz] == '}' {
                        let jend = ws_run(s, jz + 1);
                        if jend == s.len() {
                            Ok(JsonStruct { field: f, value: v })
                        } else {
                            Err(DecodeError)
                        }
                    } else {
                        Err(DecodeError)
                    }
                },
            }
        },
        Err(_) => {
            match parse_value_member_exec(s, i1) {
                Err(e) => Err(e),
                Ok((v, j1)) => {
                    let jn = ws_run(s, j1);
                    if !(jn < s.len() && s[jn] == ',') {
                        return Err(DecodeError);
                    }
                    let jp2 = ws_run(s, jn + 1);
                    match parse_field_member_exec(s, jp2) {
                        Err(e) => Err(e),
                        Ok((f, j2)) => {
                            let jz = ws_run(s, j2);
                            if jz < s.len() && s[jz] == '}' {
                                let jend = ws_run(s, jz + 1);
                                if jend == s.len() {
                                    Ok(JsonStruct { field: f, value: v })
                                } else {
                                    Err(DecodeError)
                                }
                            } else {
                                Err(DecodeError)
                            }
                        },
                    }
                },
            }
        },
    }
}

} // verus!
