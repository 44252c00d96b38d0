//! What the codec guarantees: decoding an encoded record gives the record
//! back, the serialized form always carries one of the five recognized tags,
//! an unrecognized tag never parses, and encoding is injective.
use vstd::prelude::*;
use crate::model::{SpecRecord, SpecValue};
use crate::grammar::{
    digit_char, digit_val, digits_end, enc_elems, enc_members, enc_record, enc_string, enc_value,
    esc, esc_char, field_key, frac_end, exp_end, hex_digit_char, hex_val, int_digits, int_lit,
    is_digit, is_hex_digit, is_num_char, is_number_lit, is_ws, lemma_run_end, lemma_run_end_is,
    lemma_skip_ws_at, num_end, recognized_tag, skip_ws, tag_float, tag_int, tag_list, tag_map,
    tag_of, tag_text, value_key, wf_record, wf_value, enc_payload,
};
use crate::parsing::{
    close_tagged, cons_parsed, digits_val, esc_code, has_key, parse_field_member, parse_int,
    parse_members, parse_number, parse_pairs, parse_record, parse_str_body, parse_string,
    parse_value, parse_value_member, parse_elems, parse_items,
};
use crate::grammar::distinct_keys;

verus! {

proof fn lemma_digit_char_val(n: int)
    requires
        0 <= n <= 9,
    ensures
        is_digit(digit_char(n)),
        digit_val(digit_char(n)) == n,
        !is_ws(digit_char(n)),
        digit_char(n) != '-',
{
}

proof fn lemma_hex_char_val(n: int)
    requires
        0 <= n < 16,
    ensures
        is_hex_digit(hex_digit_char(n)),
        hex_val(hex_digit_char(n)) == n,
{
}

proof fn lemma_int_digits_chars(n: int)
    requires
        n >= 0,
    ensures
        int_digits(n).len() >= 1,
        forall|k: int| 0 <= k < int_digits(n).len() ==> is_digit(#[trigger] int_digits(n)[k]),
    decreases n,
{
    if n < 10 {
        lemma_digit_char_val(n);
    } else {
        lemma_int_digits_chars(n / 10);
        lemma_digit_char_val(n % 10);
    }
}

proof fn lemma_digits_val_of(u: Seq<char>, a: int, n: int)
    requires
        n >= 0,
        0 <= a,
        a + int_digits(n).len() <= u.len(),
        u.subrange(a, a + int_digits(n).len()) == int_digits(n),
    ensures
        digits_val(u, a, a + int_digits(n).len()) == n,
    decreases n,
{
    let d = int_digits(n);
    let b = a + d.len();
    assert(u[b - 1] == d[d.len() - 1]);
    if n < 10 {
        lemma_digit_char_val(n);
        assert(u[b - 1] == digit_char(n));
        assert(digits_val(u, a, b) == digits_val(u, a, a) * 10 + digit_val(u[b - 1]));
    } else {
        assert(d == int_digits(n / 10).push(digit_char(n % 10)));
        assert(u.subrange(a, b - 1) =~= int_digits(n / 10));
        lemma_digits_val_of(u, a, n / 10);
        lemma_digit_char_val(n % 10);
        assert(u[b - 1] == digit_char(n % 10));
    }
}

proof fn lemma_parse_int_enc(i: int, p: Seq<char>, s: Seq<char>)
    requires
        i32::MIN <= i <= i32::MAX,
        s.len() > 0,
        !is_digit(s[0]),
    ensures
        parse_int(p + int_lit(i) + s, p.len() as int) == Some((i, p.len() as int + int_lit(i).len())),
{
    let u = p + int_lit(i) + s;
    let n: int = if i < 0 { -i } else { i };
    lemma_int_digits_chars(n);
    let d = int_digits(n);
    let a: int = if i < 0 { p.len() as int + 1 } else { p.len() as int };
    let b = a + d.len();
    assert(u.len() == p.len() + int_lit(i).len() + s.len());
    assert forall|k: int| a <= k < b implies is_digit(#[trigger] u[k]) by {
        assert(u[k] == d[k - a]);
    };
    assert(u[b] == s[0]);
    lemma_run_end_is(u, a, b, |c: char| is_digit(c));
    assert(digits_end(u, a) == b);
    if i < 0 {
        assert(u[p.len() as int] == '-');
    } else {
        assert(u[p.len() as int] == d[0]);
    }
    assert(u.subrange(a, b) =~= d);
    lemma_digits_val_of(u, a, n);
}

proof fn lemma_number_chars(t: Seq<char>)
    requires
        is_number_lit(t),
    ensures
        t.len() > 0,
        forall|k: int| 0 <= k < t.len() ==> is_num_char(#[trigger] t[k]),
        !is_ws(t[0]),
{
    let i0: int = if t.len() > 0 && t[0] == '-' { 1 } else { 0 };
    let i1 = digits_end(t, i0);
    let i2 = frac_end(t, i1);
    let i3 = exp_end(t, i2);
    assert(i1 > i0 && i3 == t.len());
    lemma_run_end(t, i0, |c: char| is_digit(c));
    if 0 <= i1 < t.len() && t[i1] == '.' {
        lemma_run_end(t, i1 + 1, |c: char| is_digit(c));
    }
    if 0 <= i2 < t.len() && (t[i2] == 'e' || t[i2] == 'E') {
        let k0: int = if i2 + 1 < t.len() && (t[i2 + 1] == '+' || t[i2 + 1] == '-') {
            i2 + 2
        } else {
            i2 + 1
        };
        lemma_run_end(t, k0, |c: char| is_digit(c));
    }
    assert forall|k: int| 0 <= k < t.len() implies is_num_char(#[trigger] t[k]) by {
        if k < i0 {
            assert(t[k] == '-');
        } else if k < i1 {
            assert(is_digit(t[k]));
        } else if i2 != i1 && k == i1 {
            assert(t[k] == '.');
        } else if i2 != i1 && k < i2 {
            assert(is_digit(t[k]));
        } else if k == i2 {
            assert(t[k] == 'e' || t[k] == 'E');
        } else {
            let k0: int = if i2 + 1 < t.len() && (t[i2 + 1] == '+' || t[i2 + 1] == '-') {
                i2 + 2
            } else {
                i2 + 1
            };
            if k < k0 {
                assert(t[k] == '+' || t[k] == '-');
            } else {
                assert(is_digit(t[k]));
            }
        }
    };
    if i0 == 1 {
        assert(t[0] == '-');
    } else {
        assert(is_digit(t[0]));
    }
}

proof fn lemma_parse_number_enc(t: Seq<char>, p: Seq<char>, s: Seq<char>)
    requires
        is_number_lit(t),
        s.len() > 0,
        !is_num_char(s[0]),
    ensures
        parse_number(p + t + s, p.len() as int) == Some((t, p.len() as int + t.len())),
{
    let u = p + t + s;
    lemma_number_chars(t);
    let a = p.len() as int;
    let b = a + t.len();
    assert forall|k: int| a <= k < b implies is_num_char(#[trigger] u[k]) by {
        assert(u[k] == t[k - a]);
    };
    assert(u[b] == s[0]);
    lemma_run_end_is(u, a, b, |c: char| is_num_char(c));
    assert(num_end(u, a) == b);
    assert(u.subrange(a, b) =~= t);
}

proof fn lemma_parse_body_enc(t: Seq<char>, p: Seq<char>, s: Seq<char>)
    ensures
        parse_str_body(p + esc(t) + (seq!['"'] + s), p.len() as int) == Some(
            (t, p.len() as int + esc(t).len() + 1),
        ),
    decreases t.len(),
{
    let u = p + esc(t) + (seq!['"'] + s);
    if t.len() == 0 {
        assert(esc(t) =~= Seq::<char>::empty());
        assert(u[p.len() as int] == '"');
        assert(parse_str_body(u, p.len() as int) == Some((Seq::<char>::empty(), p.len() as int + 1)));
    } else {
        let c = t[0];
        let t2 = t.drop_first();
        let p2 = p + esc_char(c);
        lemma_parse_body_enc(t2, p2, s);
        assert(esc(t) == esc_char(c) + esc(t2));
        assert(u =~= p2 + esc(t2) + (seq!['"'] + s));
        let j2 = p2.len() as int;
        assert(parse_str_body(u, j2) == Some((t2, p2.len() as int + esc(t2).len() + 1)));
        assert(seq![c] + t2 =~= t);
        if c == '"' {
            assert(u[p.len() as int] == esc_char(c)[0]);
            assert(u[p.len() as int + 1] == esc_char(c)[1]);
            assert(esc_code('"') == Some('"'));
            assert(parse_str_body(u, p.len() as int) == cons_parsed('"', parse_str_body(u, j2)));
        } else if c == '\\' {
            assert(u[p.len() as int] == esc_char(c)[0]);
            assert(u[p.len() as int + 1] == esc_char(c)[1]);
            assert(esc_code('\\') == Some('\\'));
            assert(parse_str_body(u, p.len() as int) == cons_parsed('\\', parse_str_body(u, j2)));
        } else if (c as u32) < 32 {
            let hi = (c as u32) as int / 16;
            let lo = (c as u32) as int % 16;
            lemma_hex_char_val(hi);
            lemma_hex_char_val(lo);
            assert(u[p.len() as int] == esc_char(c)[0]);
            assert(u[p.len() as int + 1] == esc_char(c)[1]);
            assert(u[p.len() as int + 2] == esc_char(c)[2]);
            assert(u[p.len() as int + 3] == esc_char(c)[3]);
            assert(u[p.len() as int + 4] == esc_char(c)[4]);
            assert(u[p.len() as int + 5] == esc_char(c)[5]);
            assert(esc_char(c)[4] == hex_digit_char(hi));
            assert(esc_char(c)[5] == hex_digit_char(lo));
            let v = hex_val(u[p.len() as int + 2]) * 4096 + hex_val(u[p.len() as int + 3]) * 256 + hex_val(
                u[p.len() as int + 4],
            ) * 16 + hex_val(u[p.len() as int + 5]);
            assert(hex_val('0') == 0);
            assert(v == hi * 16 + lo);
            assert(v == c as u32);
            vstd::utf8::char_u32_cast(c, v as u32);
            assert(((v as u32) as char) == c);
            assert(parse_str_body(u, p.len() as int) == cons_parsed(c, parse_str_body(u, j2)));
        } else {
            assert(u[p.len() as int] == c);
            assert(parse_str_body(u, p.len() as int) == cons_parsed(c, parse_str_body(u, j2)));
        }
    }
}

proof fn lemma_parse_string_enc(t: Seq<char>, p: Seq<char>, s: Seq<char>)
    ensures
        parse_string(p + enc_string(t) + s, p.len() as int) == Some(
            (t, p.len() as int + enc_string(t).len()),
        ),
{
    let u = p + enc_string(t) + s;
    assert(u =~= (p + seq!['"']) + esc(t) + (seq!['"'] + s));
    lemma_parse_body_enc(t, p + seq!['"'], s);
    assert(u[p.len() as int] == '"');
    assert(parse_string(u, p.len() as int) == parse_str_body(u, p.len() as int + 1));
}

// The shared opening of every tagged value: brace, quoted tag, colon.
// Each variant lemma re-derives it; the payload and the closing brace are
// what differ.

#[verifier::rlimit(100)]
#[verifier::spinoff_prover]
proof fn lemma_parse_value_int(n: int, p: Seq<char>, s: Seq<char>)
    requires
        i32::MIN <= n <= i32::MAX,
    ensures
        parse_value(p + enc_value(SpecValue::Integer(n)) + s, p.len() as int) == Some(
            (SpecValue::Integer(n), p.len() as int + enc_value(SpecValue::Integer(n)).len()),
        ),
{
    let v = SpecValue::Integer(n);
    let i = p.len() as int;
    let e = enc_value(v);
    let u = p + e + s;
    let es = enc_string(tag_int());
    let tail0 = seq![':'] + enc_payload(v) + seq!['}'] + s;
    assert(u =~= (p + seq!['{']) + es + tail0);
    assert(u[i] == '{');
    assert(es[0] == '"');
    assert(u[i + 1] == '"');
    lemma_skip_ws_at(u, i + 1);
    lemma_parse_string_enc(tag_int(), p + seq!['{'], tail0);
    let jt = i + 1 + es.len();
    assert(parse_string(u, i + 1) == Some((tag_int(), jt)));
    assert(u[jt] == ':');
    lemma_skip_ws_at(u, jt);
    let q = jt + 1;
    let pfx = p + seq!['{'] + es + seq![':'];
    assert(pfx.len() == q);
    assert(u =~= pfx + int_lit(n) + (seq!['}'] + s));
    lemma_int_digits_chars(if n < 0 { -n } else { n });
    assert(u[q] == int_lit(n)[0]);
    assert(!is_ws(u[q]));
    lemma_skip_ws_at(u, q);
    lemma_parse_int_enc(n, pfx, seq!['}'] + s);
    let je = q + int_lit(n).len();
    assert(parse_int(u, q) == Some((n, je)));
    assert(u =~= (pfx + int_lit(n)) + (seq!['}'] + s));
    assert(u[je] == '}');
    lemma_skip_ws_at(u, je);
    assert(close_tagged(u, je, v) == Some((v, je + 1)));
    assert(parse_value(u, i) == Some((v, je + 1)));
    assert(je + 1 == i + e.len());
}

#[verifier::rlimit(100)]
#[verifier::spinoff_prover]
proof fn lemma_parse_value_float(t: Seq<char>, p: Seq<char>, s: Seq<char>)
    requires
        is_number_lit(t),
    ensures
        parse_value(p + enc_value(SpecValue::Float(t)) + s, p.len() as int) == Some(
            (SpecValue::Float(t), p.len() as int + enc_value(SpecValue::Float(t)).len()),
        ),
{
    let v = SpecValue::Float(t);
    let i = p.len() as int;
    let e = enc_value(v);
    let u = p + e + s;
    let es = enc_string(tag_float());
    let tail0 = seq![':'] + enc_payload(v) + seq!['}'] + s;
    assert(u =~= (p + seq!['{']) + es + tail0);
    assert(u[i] == '{');
    assert(es[0] == '"');
    assert(u[i + 1] == '"');
    lemma_skip_ws_at(u, i + 1);
    lemma_parse_string_enc(tag_float(), p + seq!['{'], tail0);
    let jt = i + 1 + es.len();
    assert(parse_string(u, i + 1) == Some((tag_float(), jt)));
    assert(u[jt] == ':');
    lemma_skip_ws_at(u, jt);
    let q = jt + 1;
    let pfx = p + seq!['{'] + es + seq![':'];
    assert(pfx.len() == q);
    assert(u =~= pfx + t + (seq!['}'] + s));
    lemma_number_chars(t);
    assert(u[q] == t[0]);
    lemma_skip_ws_at(u, q);
    lemma_parse_number_enc(t, pfx, seq!['}'] + s);
    let je = q + t.len();
    assert(parse_number(u, q) == Some((t, je)));
    assert(u =~= (pfx + t) + (seq!['}'] + s));
    assert(u[je] == '}');
    lemma_skip_ws_at(u, je);
    assert(close_tagged(u, je, v) == Some((v, je + 1)));
    assert(tag_float() != tag_int());
    assert(parse_value(u, i) == Some((v, je + 1)));
    assert(je + 1 == i + e.len());
}

#[verifier::rlimit(100)]
#[verifier::spinoff_prover]
proof fn lemma_parse_value_text(t: Seq<char>, p: Seq<char>, s: Seq<char>)
    ensures
        parse_value(p + enc_value(SpecValue::Text(t)) + s, p.len() as int) == Some(
            (SpecValue::Text(t), p.len() as int + enc_value(SpecValue::Text(t)).len()),
        ),
{
    let v = SpecValue::Text(t);
    let i = p.len() as int;
    let e = enc_value(v);
    let u = p + e + s;
    let es = enc_string(tag_text());
    let tail0 = seq![':'] + enc_payload(v) + seq!['}'] + s;
    assert(u =~= (p + seq!['{']) + es + tail0);
    assert(u[i] == '{');
    assert(es[0] == '"');
    assert(u[i + 1] == '"');
    lemma_skip_ws_at(u, i + 1);
    lemma_parse_string_enc(tag_text(), p + seq!['{'], tail0);
    let jt = i + 1 + es.len();
    assert(parse_string(u, i + 1) == Some((tag_text(), jt)));
    assert(u[jt] == ':');
    lemma_skip_ws_at(u, jt);
    let q = jt + 1;
    let pfx = p + seq!['{'] + es + seq![':'];
    assert(pfx.len() == q);
    assert(u =~= pfx + enc_string(t) + (seq!['}'] + s));
    assert(u[q] == enc_string(t)[0]);
    assert(u[q] == '"');
    lemma_skip_ws_at(u, q);
    lemma_parse_string_enc(t, pfx, seq!['}'] + s);
    let je = q + enc_string(t).len();
    assert(parse_string(u, q) == Some((t, je)));
    assert(u =~= (pfx + enc_string(t)) + (seq!['}'] + s));
    assert(u[je] == '}');
    lemma_skip_ws_at(u, je);
    assert(close_tagged(u, je, v) == Some((v, je + 1)));
    assert(tag_text() != tag_int() && tag_text() != tag_float());
    assert(parse_value(u, i) == Some((v, je + 1)));
    assert(je + 1 == i + e.len());
}

/// The shape every tagged value shares: brace, quoted tag, colon, payload,
/// closing brace, with no whitespace of its own.
#[verifier::rlimit(100)]
#[verifier::spinoff_prover]
proof fn lemma_parse_tagged_prolog(tg: Seq<char>, pay: Seq<char>, p: Seq<char>, s: Seq<char>)
    requires
        pay.len() > 0,
        !is_ws(pay[0]),
    ensures
        ({
            let u = p + (seq!['{'] + enc_string(tg) + seq![':'] + pay + seq!['}']) + s;
            let i = p.len() as int;
            let jt = i + 1 + enc_string(tg).len();
            let q = jt + 1;
            let je = q + pay.len();
            0 <= i < u.len() && u[i] == '{' && skip_ws(u, i + 1) == i + 1 && parse_string(u, i + 1)
                == Some((tg, jt)) && 0 <= jt < u.len() && u[jt] == ':' && skip_ws(u, jt) == jt
                && skip_ws(u, q) == q && u[q] == pay[0] && 0 <= je < u.len() && u[je] == '}'
                && (forall|v: SpecValue| close_tagged(u, je, v) == Some((v, je + 1))) && je + 1 == i
                + (seq!['{'] + enc_string(tg) + seq![':'] + pay + seq!['}']).len()
        }),
{
    let u = p + (seq!['{'] + enc_string(tg) + seq![':'] + pay + seq!['}']) + s;
    let i = p.len() as int;
    let es = enc_string(tg);
    let jt = i + 1 + es.len();
    let q = jt + 1;
    let je = q + pay.len();
    let tail0 = seq![':'] + pay + seq!['}'] + s;
    assert(u =~= (p + seq!['{']) + es + tail0);
    assert(u[i] == '{');
    assert(es[0] == '"');
    assert(u[i + 1] == '"');
    lemma_skip_ws_at(u, i + 1);
    lemma_parse_string_enc(tg, p + seq!['{'], tail0);
    assert(parse_string(u, i + 1) == Some((tg, jt)));
    assert(u[jt] == ':');
    lemma_skip_ws_at(u, jt);
    let pfx = p + seq!['{'] + es + seq![':'];
    assert(pfx.len() == q);
    assert(u =~= pfx + pay + (seq!['}'] + s));
    assert(u[q] == pay[0]);
    lemma_skip_ws_at(u, q);
    assert(u[je] == '}');
    lemma_skip_ws_at(u, je);
    assert forall|v: SpecValue| close_tagged(u, je, v) == Some((v, je + 1)) by {}
}

#[verifier::rlimit(100)]
#[verifier::spinoff_prover]
proof fn lemma_parse_value_map(ps: Seq<(Seq<char>, SpecValue)>, p: Seq<char>, s: Seq<char>)
    requires
        distinct_keys(ps),
        forall|x: int| 0 <= x < ps.len() ==> wf_value(#[trigger] ps[x].1),
    ensures
        parse_value(p + enc_value(SpecValue::Mapping(ps)) + s, p.len() as int) == Some(
            (SpecValue::Mapping(ps), p.len() as int + enc_value(SpecValue::Mapping(ps)).len()),
        ),
    decreases ps, 2int, 0int,
{
    let v = SpecValue::Mapping(ps);
    let e = enc_value(v);
    let i = p.len() as int;
    let u = p + e + s;
    let pay = enc_payload(v);
    assert(pay == seq!['{'] + enc_members(ps, 0) + seq!['}']);
    assert(pay[0] == '{');
    lemma_parse_tagged_prolog(tag_map(), pay, p, s);
    assert(e == seq!['{'] + enc_string(tag_map()) + seq![':'] + pay + seq!['}']);
    let jt = i + 1 + enc_string(tag_map()).len();
    let q = jt + 1;
    let je = q + pay.len();
    let pfx = p + seq!['{'] + enc_string(tag_map()) + seq![':'];
    assert(pfx.len() == q);
    assert(u =~= (pfx + seq!['{']) + enc_members(ps, 0) + (seq!['}'] + (seq!['}'] + s)));
    let jm = q + 1;
    if ps.len() == 0 {
        assert(enc_members(ps, 0) =~= Seq::<char>::empty());
        assert(u[jm] == '}');
        assert(parse_members(u, jm) == Some((Seq::<(Seq<char>, SpecValue)>::empty(), jm + 1)));
        assert(ps =~= Seq::<(Seq<char>, SpecValue)>::empty());
    } else {
        assert(enc_members(ps, 0)[0] == enc_string(ps[0].0)[0]);
        assert(u[jm] == '"');
        lemma_parse_pairs_enc(ps, 0, pfx + seq!['{'], seq!['}'] + s);
        assert(ps.skip(0) =~= ps);
        assert(parse_pairs(u, jm) == Some((ps, jm + enc_members(ps, 0).len() + 1)));
        assert(parse_members(u, jm) == Some((ps, jm + enc_members(ps, 0).len() + 1)));
    }
    assert(jm + enc_members(ps, 0).len() + 1 == je);
    assert(close_tagged(u, je, v) == Some((v, je + 1)));
    assert(tag_map() != tag_int() && tag_map() != tag_float() && tag_map() != tag_text());
    assert(parse_value(u, i) == Some((v, je + 1)));
    assert(je + 1 == i + e.len());
}

#[verifier::rlimit(100)]
#[verifier::spinoff_prover]
proof fn lemma_parse_value_list(vs: Seq<SpecValue>, p: Seq<char>, s: Seq<char>)
    requires
        forall|x: int| 0 <= x < vs.len() ==> wf_value(#[trigger] vs[x]),
    ensures
        parse_value(p + enc_value(SpecValue::List(vs)) + s, p.len() as int) == Some(
            (SpecValue::List(vs), p.len() as int + enc_value(SpecValue::List(vs)).len()),
        ),
    decreases vs, 2int, 0int,
{
    let v = SpecValue::List(vs);
    let e = enc_value(v);
    let i = p.len() as int;
    let u = p + e + s;
    let pay = enc_payload(v);
    assert(pay == seq!['['] + enc_elems(vs, 0) + seq![']']);
    assert(pay[0] == '[');
    lemma_parse_tagged_prolog(tag_list(), pay, p, s);
    assert(e == seq!['{'] + enc_string(tag_list()) + seq![':'] + pay + seq!['}']);
    let jt = i + 1 + enc_string(tag_list()).len();
    let q = jt + 1;
    let je = q + pay.len();
    let pfx = p + seq!['{'] + enc_string(tag_list()) + seq![':'];
    assert(pfx.len() == q);
    assert(u =~= (pfx + seq!['[']) + enc_elems(vs, 0) + (seq![']'] + (seq!['}'] + s)));
    let jm = q + 1;
    if vs.len() == 0 {
        assert(enc_elems(vs, 0) =~= Seq::<char>::empty());
        assert(u[jm] == ']');
        assert(parse_elems(u, jm) == Some((Seq::<SpecValue>::empty(), jm + 1)));
        assert(vs =~= Seq::<SpecValue>::empty());
    } else {
        assert(enc_elems(vs, 0)[0] == enc_value(vs[0])[0]);
        assert(u[jm] == '{');
        lemma_parse_items_enc(vs, 0, pfx + seq!['['], seq!['}'] + s);
        assert(vs.skip(0) =~= vs);
        assert(parse_items(u, jm) == Some((vs, jm + enc_elems(vs, 0).len() + 1)));
        assert(u[jm] != ']');
        assert(parse_elems(u, jm) == Some((vs, jm + enc_elems(vs, 0).len() + 1)));
    }
    assert(jm + enc_elems(vs, 0).len() + 1 == je);
    assert(close_tagged(u, je, v) == Some((v, je + 1)));
    assert(tag_list() != tag_int() && tag_list() != tag_float() && tag_list() != tag_text()
        && tag_list() != tag_map());
    assert(parse_value(u, i) == Some((v, je + 1)));
    assert(je + 1 == i + e.len());
}

proof fn lemma_parse_value_enc(v: SpecValue, p: Seq<char>, s: Seq<char>)
    requires
        wf_value(v),
    ensures
        parse_value(p + enc_value(v) + s, p.len() as int) == Some(
            (v, p.len() as int + enc_value(v).len()),
        ),
    decreases v, 0int, 1int,
{
    match v {
        SpecValue::Integer(n) => lemma_parse_value_int(n, p, s),
        SpecValue::Float(t) => lemma_parse_value_float(t, p, s),
        SpecValue::Text(t) => lemma_parse_value_text(t, p, s),
        SpecValue::Mapping(ps) => lemma_parse_value_map(ps, p, s),
        SpecValue::List(vs) => lemma_parse_value_list(vs, p, s),
    }
}

/// One key/value pair at the head of the members region.
#[verifier::rlimit(100)]
#[verifier::spinoff_prover]
proof fn lemma_parse_pair_step(key: Seq<char>, vv: SpecValue, p: Seq<char>, s2: Seq<char>)
    requires
        wf_value(vv),
    ensures
        ({
            let u = p + (enc_string(key) + seq![':'] + enc_value(vv)) + s2;
            let jk = p.len() as int + enc_string(key).len();
            let je = jk + 1 + enc_value(vv).len();
            parse_string(u, p.len() as int) == Some((key, jk)) && skip_ws(u, jk) == jk && u[jk]
                == ':' && skip_ws(u, jk + 1) == jk + 1 && parse_value(u, jk + 1) == Some((vv, je))
        }),
    decreases vv, 0int, 2int,
{
    let u = p + (enc_string(key) + seq![':'] + enc_value(vv)) + s2;
    let i = p.len() as int;
    let jk = i + enc_string(key).len();
    let ev = enc_value(vv);
    let s1 = seq![':'] + ev + s2;
    assert(u =~= p + enc_string(key) + s1);
    lemma_parse_string_enc(key, p, s1);
    assert(parse_string(u, i) == Some((key, jk)));
    assert(u =~= (p + enc_string(key)) + s1);
    assert(u[jk] == ':');
    lemma_skip_ws_at(u, jk);
    let jv = jk + 1;
    let pfx = p + enc_string(key) + seq![':'];
    assert(pfx.len() == jv);
    assert(u =~= pfx + ev + s2);
    assert(u[jv] == ev[0]);
    assert(u[jv] == '{');
    lemma_skip_ws_at(u, jv);
    lemma_parse_value_enc(vv, pfx, s2);
    assert(parse_value(u, jv) == Some((vv, jv + ev.len())));
}

#[verifier::rlimit(100)]
#[verifier::spinoff_prover]
proof fn lemma_parse_pairs_enc(ps: Seq<(Seq<char>, SpecValue)>, k: int, p: Seq<char>, s: Seq<char>)
    requires
        0 <= k < ps.len(),
        distinct_keys(ps),
        forall|x: int| k <= x < ps.len() ==> wf_value(#[trigger] ps[x].1),
    ensures
        parse_pairs(p + enc_members(ps, k) + (seq!['}'] + s), p.len() as int) == Some(
            (ps.skip(k), p.len() as int + enc_members(ps, k).len() + 1),
        ),
    decreases ps, 1int, ps.len() - k,
{
    let i = p.len() as int;
    let em = enc_members(ps, k);
    let u = p + em + (seq!['}'] + s);
    let key = ps[k].0;
    let ev = enc_value(ps[k].1);
    let rest: Seq<char> = if k + 1 < ps.len() {
        seq![','] + enc_members(ps, k + 1)
    } else {
        Seq::empty()
    };
    assert(em == enc_string(key) + seq![':'] + ev + rest);
    let s2 = rest + (seq!['}'] + s);
    assert(u =~= p + (enc_string(key) + seq![':'] + enc_value(ps[k].1)) + s2);
    lemma_parse_pair_step(key, ps[k].1, p, s2);
    let jk = i + enc_string(key).len();
    let je = jk + 1 + ev.len();
    assert(parse_string(u, i) == Some((key, jk)));
    assert(parse_value(u, jk + 1) == Some((ps[k].1, je)));
    let pfx = p + enc_string(key) + seq![':'];
    assert(u =~= (pfx + ev) + (rest + (seq!['}'] + s)));
    if k + 1 < ps.len() {
        assert(u[je] == ',');
        lemma_skip_ws_at(u, je);
        let jm = je + 1;
        let pfx2 = pfx + ev + seq![','];
        assert(pfx2.len() == jm);
        assert(u =~= pfx2 + enc_members(ps, k + 1) + (seq!['}'] + s));
        assert(enc_members(ps, k + 1)[0] == enc_string(ps[k + 1].0)[0]);
        assert(u[jm] == '"');
        lemma_skip_ws_at(u, jm);
        lemma_parse_pairs_enc(ps, k + 1, pfx2, s);
        let jz = jm + enc_members(ps, k + 1).len() + 1;
        assert(parse_pairs(u, jm) == Some((ps.skip(k + 1), jz)));
        assert(!has_key(ps.skip(k + 1), key)) by {
            if has_key(ps.skip(k + 1), key) {
                let x = choose|x: int|
                    0 <= x < ps.skip(k + 1).len() && (#[trigger] ps.skip(k + 1)[x]).0 == key;
                assert(ps[k + 1 + x].0 == key);
                assert(ps[k].0 != ps[k + 1 + x].0);
                assert(false);
            }
        };
        assert((ps[k].0, ps[k].1) == ps[k]);
        assert(seq![ps[k]] + ps.skip(k + 1) =~= ps.skip(k));
        assert(parse_pairs(u, i) == Some((ps.skip(k), jz)));
        assert(jz == i + em.len() + 1);
    } else {
        assert(rest =~= Seq::<char>::empty());
        assert(u =~= (pfx + ev) + (seq!['}'] + s));
        assert(u[je] == '}');
        lemma_skip_ws_at(u, je);
        assert((ps[k].0, ps[k].1) == ps[k]);
        assert(seq![ps[k]] =~= ps.skip(k));
        assert(parse_pairs(u, i) == Some((ps.skip(k), je + 1)));
        assert(je + 1 == i + em.len() + 1);
    }
}

#[verifier::rlimit(100)]
#[verifier::spinoff_prover]
proof fn lemma_parse_items_enc(vs: Seq<SpecValue>, k: int, p: Seq<char>, s: Seq<char>)
    requires
        0 <= k < vs.len(),
        forall|x: int| k <= x < vs.len() ==> wf_value(#[trigger] vs[x]),
    ensures
        parse_items(p + enc_elems(vs, k) + (seq![']'] + s), p.len() as int) == Some(
            (vs.skip(k), p.len() as int + enc_elems(vs, k).len() + 1),
        ),
    decreases vs, 1int, vs.len() - k,
{
    let i = p.len() as int;
    let em = enc_elems(vs, k);
    let u = p + em + (seq![']'] + s);
    let ev = enc_value(vs[k]);
    let rest: Seq<char> = if k + 1 < vs.len() {
        seq![','] + enc_elems(vs, k + 1)
    } else {
        Seq::empty()
    };
    assert(em == ev + rest);
    assert(u =~= p + ev + (rest + (seq![']'] + s)));
    lemma_parse_value_enc(vs[k], p, rest + (seq![']'] + s));
    let je = i + ev.len();
    assert(parse_value(u, i) == Some((vs[k], je)));
    assert(u =~= (p + ev) + (rest + (seq![']'] + s)));
    if k + 1 < vs.len() {
        assert(u[je] == ',');
        lemma_skip_ws_at(u, je);
        let jm = je + 1;
        let pfx2 = p + ev + seq![','];
        assert(pfx2.len() == jm);
        assert(u =~= pfx2 + enc_elems(vs, k + 1) + (seq![']'] + s));
        assert(enc_elems(vs, k + 1)[0] == enc_value(vs[k + 1])[0]);
        assert(u[jm] == '{');
        lemma_skip_ws_at(u, jm);
        lemma_parse_items_enc(vs, k + 1, pfx2, s);
        let jz = jm + enc_elems(vs, k + 1).len() + 1;
        assert(parse_items(u, jm) == Some((vs.skip(k + 1), jz)));
        assert(seq![vs[k]] + vs.skip(k + 1) =~= vs.skip(k));
        assert(parse_items(u, i) == Some((vs.skip(k), jz)));
        assert(jz == i + em.len() + 1);
    } else {
        assert(rest =~= Seq::<char>::empty());
        assert(u =~= (p + ev) + (seq![']'] + s));
        assert(u[je] == ']');
        lemma_skip_ws_at(u, je);
        assert(seq![vs[k]] =~= vs.skip(k));
        assert(parse_items(u, i) == Some((vs.skip(k), je + 1)));
        assert(je + 1 == i + em.len() + 1);
    }
}

/// Round-trip: parsing the serialized form of any well-formed record gives
/// exactly that record back.  Together with the contracts of `json_encode`
/// and `json_decode`, decoding an encoded record returns the record.
#[verifier::rlimit(100)]
#[verifier::spinoff_prover]
pub proof fn lemma_round_trip(m: SpecRecord)
    requires
        wf_record(m),
    ensures
        parse_record(enc_record(m)) == Some(m),
{
    let u = enc_record(m);
    let p0 = seq!['{'];
    let tail0 = seq![':'] + enc_string(m.field) + seq![','] + enc_string(value_key()) + seq![':']
        + enc_value(m.value) + seq!['}'];
    assert(u =~= p0 + enc_string(field_key()) + tail0);
    assert(u[0] == '{');
    lemma_skip_ws_at(u, 0);
    assert(enc_string(field_key())[0] == '"');
    assert(u[1] == '"');
    lemma_skip_ws_at(u, 1);
    lemma_parse_string_enc(field_key(), p0, tail0);
    let j0 = 1 + enc_string(field_key()).len() as int;
    assert(parse_string(u, 1) == Some((field_key(), j0)));
    assert(u[j0] == ':');
    lemma_skip_ws_at(u, j0);
    let pfx1 = p0 + enc_string(field_key()) + seq![':'];
    let jf = j0 + 1;
    assert(pfx1.len() == jf);
    let tail1 = seq![','] + enc_string(value_key()) + seq![':'] + enc_value(m.value) + seq!['}'];
    assert(u =~= pfx1 + enc_string(m.field) + tail1);
    assert(u[jf] == enc_string(m.field)[0]);
    assert(u[jf] == '"');
    lemma_skip_ws_at(u, jf);
    lemma_parse_string_enc(m.field, pfx1, tail1);
    let j1 = jf + enc_string(m.field).len();
    assert(parse_string(u, jf) == Some((m.field, j1)));
    assert(parse_field_member(u, 1) == Some((m.field, j1)));
    assert(u =~= (pfx1 + enc_string(m.field)) + tail1);
    assert(u[j1] == ',');
    lemma_skip_ws_at(u, j1);
    let jv0 = j1 + 1;
    let pfx2 = pfx1 + enc_string(m.field) + seq![','];
    assert(pfx2.len() == jv0);
    let tail2 = seq![':'] + enc_value(m.value) + seq!['}'];
    assert(u =~= pfx2 + enc_string(value_key()) + tail2);
    assert(u[jv0] == enc_string(value_key())[0]);
    assert(u[jv0] == '"');
    lemma_skip_ws_at(u, jv0);
    lemma_parse_string_enc(value_key(), pfx2, tail2);
    let j2 = jv0 + enc_string(value_key()).len();
    assert(parse_string(u, jv0) == Some((value_key(), j2)));
    assert(u =~= (pfx2 + enc_string(value_key())) + tail2);
    assert(u[j2] == ':');
    lemma_skip_ws_at(u, j2);
    let jv1 = j2 + 1;
    let pfx3 = pfx2 + enc_string(value_key()) + seq![':'];
    assert(pfx3.len() == jv1);
    assert(u =~= pfx3 + enc_value(m.value) + seq!['}']);
    assert(u[jv1] == enc_value(m.value)[0]);
    assert(u[jv1] == '{');
    lemma_skip_ws_at(u, jv1);
    lemma_parse_value_enc(m.value, pfx3, seq!['}']);
    let j3 = jv1 + enc_value(m.value).len();
    assert(parse_value(u, jv1) == Some((m.value, j3)));
    assert(parse_value_member(u, jv0) == Some((m.value, j3)));
    assert(u =~= (pfx3 + enc_value(m.value)) + seq!['}']);
    assert(u[j3] == '}');
    lemma_skip_ws_at(u, j3);
    assert(j3 + 1 == u.len());
    assert(skip_ws(u, j3 + 1) == u.len());
    assert(field_key() != value_key());
    assert(parse_record(u) == Some(SpecRecord { field: m.field, value: m.value }));
    assert(SpecRecord { field: m.field, value: m.value } == m);
}

/// Tag fidelity, encoding side: the serialized form of any value is a
/// one-member object whose key is exactly one of the five recognized tags
/// (the five are pairwise distinct).
pub proof fn lemma_tag_fidelity(v: SpecValue)
    ensures
        recognized_tag(tag_of(v)),
        enc_value(v) == seq!['{'] + enc_string(tag_of(v)) + seq![':'] + enc_payload(v) + seq!['}'],
        tag_int() != tag_float() && tag_int() != tag_text() && tag_int() != tag_map() && tag_int()
            != tag_list(),
        tag_float() != tag_text() && tag_float() != tag_map() && tag_float() != tag_list(),
        tag_text() != tag_map() && tag_text() != tag_list(),
        tag_map() != tag_list(),
{
    assert(tag_int()[0] == 'I' && tag_float()[0] == 'F' && tag_text()[0] == 'T' && tag_map()[0]
        == 'M' && tag_list()[0] == 'L');
}

/// Tag fidelity, decoding side: where the tag of a tagged object is outside
/// the recognized five, the parse fails.
pub proof fn lemma_unknown_tag_fails(s: Seq<char>, i: int, tag: Seq<char>, jt: int)
    requires
        parse_string(s, skip_ws(s, i + 1)) == Some((tag, jt)),
        !recognized_tag(tag),
    ensures
        parse_value(s, i) is None,
{
}

/// Encoding is injective on well-formed values: distinct values never
/// serialize to the same text.
pub proof fn lemma_enc_injective(v1: SpecValue, v2: SpecValue)
    requires
        wf_value(v1),
        wf_value(v2),
        enc_value(v1) == enc_value(v2),
    ensures
        v1 == v2,
{
    lemma_parse_value_enc(v1, Seq::empty(), Seq::empty());
    lemma_parse_value_enc(v2, Seq::empty(), Seq::empty());
    assert(Seq::empty() + enc_value(v1) + Seq::empty() =~= enc_value(v1));
    assert(Seq::empty() + enc_value(v2) + Seq::empty() =~= enc_value(v2));
}

/// Type discrimination: an integer and a float value carry different tags,
/// and their serialized forms differ.
pub proof fn lemma_type_discrimination(i: int, t: Seq<char>)
    requires
        i32::MIN <= i <= i32::MAX,
        is_number_lit(t),
    ensures
        tag_of(SpecValue::Integer(i)) != tag_of(SpecValue::Float(t)),
        enc_value(SpecValue::Integer(i)) != enc_value(SpecValue::Float(t)),
{
    assert(tag_int()[0] != tag_float()[0]);
    if enc_value(SpecValue::Integer(i)) == enc_value(SpecValue::Float(t)) {
        lemma_enc_injective(SpecValue::Integer(i), SpecValue::Float(t));
        assert(false);
    }
}

} // verus!
