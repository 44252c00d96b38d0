//! The executable encoder: renders a value tree in the serialization
//! grammar, character for character as `grammar::enc_value` states it.
use vstd::prelude::*;
use crate::model::{EncodeError, ValueTypes, SpecValue};
use crate::model::{lemma_view_list_index, lemma_view_pairs_index, view_list, view_pairs};
use crate::grammar::{
    digit_char, distinct_keys, enc_members, enc_elems, enc_string, enc_value, esc, esc_char,
    int_digits, int_lit, lemma_esc_take, lemma_tag_strings, wf_value,
};
use crate::text::{check_number, digit_ch, hex_ch, push_all, str_to_chars};

verus! {

/// Appends the decimal digits of `n`.
fn push_digits(out: &mut Vec<char>, n: i64)
    requires
        n >= 0,
    ensures
        final(out)@ == old(out)@ + int_digits(n as int),
    decreases n,
{
    if n < 10 {
        out.push(digit_ch(n as u8));
        proof {
            assert(old(out)@.push(digit_char(n as int)) =~= old(out)@ + seq![
                digit_char(n as int),
            ]);
        }
    } else {
        push_digits(out, n / 10);
        out.push(digit_ch((n % 10) as u8));
        proof {
            assert((old(out)@ + int_digits(n as int / 10)).push(digit_char(n as int % 10)) =~= old(
                out,
            )@ + int_digits(n as int / 10).push(digit_char(n as int % 10)));
        }
    }
}

/// Appends the decimal literal of `i`, with a leading minus sign when it is
/// negative.
fn push_int(out: &mut Vec<char>, i: i32)
    ensures
        final(out)@ == old(out)@ + int_lit(i as int),
{
    if i < 0 {
        out.push('-');
        let n: i64 = -(i as i64);
        push_digits(out, n);
        proof {
            assert(old(out)@.push('-') + int_digits(n as int) =~= old(out)@ + (seq!['-']
                + int_digits(-(i as int))));
        }
    } else {
        push_digits(out, i as i64);
    }
}

/// Appends one character of a quoted string, escaped as the grammar asks.
fn push_esc_char(out: &mut Vec<char>, c: char)
    ensures
        final(out)@ == old(out)@ + esc_char(c),
{
    if c == '"' {
        out.push('\\');
        out.push('"');
        proof {
            assert(old(out)@.push('\\').push('"') =~= old(out)@ + esc_char(c));
        }
    } else if c == '\\' {
        out.push('\\');
        out.push('\\');
        proof {
            assert(old(out)@.push('\\').push('\\') =~= old(out)@ + esc_char(c));
        }
    } else {
        let u = c as u32;
        if u < 32 {
            out.push('\\');
            out.push('u');
            out.push('0');
            out.push('0');
            out.push(hex_ch(u / 16));
            out.push(hex_ch(u % 16));
            proof {
                assert(out@ =~= old(out)@ + esc_char(c));
            }
        } else {
            out.push(c);
            proof {
                assert(old(out)@.push(c) =~= old(out)@ + esc_char(c));
            }
        }
    }
}

/// Appends the quoted, escaped form of `t`.
pub(crate) fn push_string(out: &mut Vec<char>, t: &str)
    ensures
        final(out)@ == old(out)@ + enc_string(t@),
{
    let chars = str_to_chars(t);
    out.push('"');
    proof {
        assert(esc(t@.take(0)) =~= Seq::<char>::empty());
        assert(out@ =~= old(out)@ + seq!['"'] + esc(t@.take(0)));
    }
    let mut k: usize = 0;
    while k < chars.len()
        invariant
            chars@ == t@,
            k <= t@.len(),
            out@ == old(out)@ + seq!['"'] + esc(t@.take(k as int)),
        decreases t@.len() - k,
    {
        push_esc_char(out, chars[k]);
        proof {
            lemma_esc_take(t@, k as int);
            assert(out@ =~= old(out)@ + seq!['"'] + esc(t@.take((k + 1) as int)));
        }
        k += 1;
    }
    out.push('"');
    proof {
        assert(t@.take(t@.len() as int) =~= t@);
        assert(out@ =~= old(out)@ + enc_string(t@));
    }
}

/// Is `key` the key of one of the first `upto` pairs of `ps`?
pub(crate) fn key_seen(ps: &Vec<(String, ValueTypes)>, upto: usize, key: &String) -> (b: bool)
    requires
        upto <= ps@.len(),
    ensures
        b == (exists|x: int| 0 <= x < upto as int && (#[trigger] ps@[x]).0@ == key@),
{
    let mut x: usize = 0;
    while x < upto
        invariant
            x <= upto <= ps@.len(),
            forall|y: int| 0 <= y < x as int ==> (#[trigger] ps@[y]).0@ != key@,
        decreases upto - x,
    {
        if ps[x].0.eq(key) {
            return true;
        }
        x += 1;
    }
    false
}

/// Appends the serialized form of `v`, or reports that some payload of `v`
/// cannot be rendered.
#[verifier::loop_isolation(false)]
#[verifier::rlimit(100)]
pub(crate) fn push_value(out: &mut Vec<char>, v: &ValueTypes) -> (r: Result<(), EncodeError>)
    ensures
        r is Ok <==> wf_value(v@),
        r is Ok ==> final(out)@ == old(out)@ + enc_value(v@),
    decreases v,
{
    match v {
        ValueTypes::Integer(i) => {
            out.push('{');
            out.push('"');
            out.push('I');
            out.push('n');
            out.push('t');
            out.push('"');
            out.push(':');
            push_int(out, *i);
            out.push('}');
            proof {
                lemma_tag_strings();
                assert(out@ =~= old(out)@ + enc_value(v@));
            }
            Ok(())
        },
        ValueTypes::Float(t) => {
            let chars = str_to_chars(t.as_str());
            if check_number(&chars) {
                out.push('{');
                out.push('"');
                out.push('F');
                out.push('l');
                out.push('o');
                out.push('a');
                out.push('t');
                out.push('"');
                out.push(':');
                push_all(out, &chars);
                out.push('}');
                proof {
                    lemma_tag_strings();
                    assert(out@ =~= old(out)@ + enc_value(v@));
                }
                Ok(())
            } else {
                Err(EncodeError)
            }
        },
        ValueTypes::Text(t) => {
            out.push('{');
            out.push('"');
            out.push('T');
            out.push('e');
            out.push('x');
            out.push('t');
            out.push('"');
            out.push(':');
            push_string(out, t.as_str());
            out.push('}');
            proof {
                lemma_tag_strings();
                assert(out@ =~= old(out)@ + enc_value(v@));
            }
            Ok(())
        },
        ValueTypes::Mapping(ps) => {
            out.push('{');
            out.push('"');
            out.push('M');
            out.push('a');
            out.push('p');
            out.push('"');
            out.push(':');
            out.push('{');
            proof {
                lemma_view_pairs_index(ps@);
            }
            let ghost m = view_pairs(ps@);
            let ghost base = out@;
            let mut k: usize = 0;
            while k < ps.len()
                invariant
                    m == view_pairs(ps@),
                    m.len() == ps@.len(),
                    forall|x: int| 0 <= x < ps@.len() ==> #[trigger] m[x] == (
                        ps@[x].0@,
                        crate::model::view_value(ps@[x].1),
                    ),
                    k <= ps@.len(),
                    base + enc_members(m, 0) == out@ + enc_members(m, k as int),
                    forall|x: int| 0 <= x < k ==> wf_value(#[trigger] m[x].1),
                    forall|a: int, b: int| 0 <= a < b < k ==> (#[trigger] m[a]).0 != (
                    #[trigger] m[b]).0,
                decreases ps@.len() - k,
            {
                if key_seen(ps, k, &ps[k].0) {
                    proof {
                        let x = choose|x: int| 0 <= x < k as int && (#[trigger] ps@[x]).0@
                            == ps@[k as int].0@;
                        assert(m[x].0 == m[k as int].0);
                        assert(!distinct_keys(m));
                        assert(v@ == SpecValue::Mapping(m));
                        assert(!wf_value(v@));
                    }
                    return Err(EncodeError);
                }
                push_string(out, ps[k].0.as_str());
                out.push(':');
                proof {
                    assert(decreases_to!(*v => *ps));
                    assert(decreases_to!(*ps => ps@[k as int]));
                    assert(decreases_to!(ps@[k as int] => ps@[k as int].1));
                }
                match push_value(out, &ps[k].1) {
                    Ok(()) => {},
                    Err(e) => {
                        proof {
                            assert(v@ == SpecValue::Mapping(m));
                            assert(!wf_value(m[k as int].1));
                            assert(!wf_value(v@));
                        }
                        return Err(e);
                    },
                }
                if k + 1 < ps.len() {
                    out.push(',');
                }
                proof {
                    assert(base + enc_members(m, 0) =~= out@ + enc_members(m, (k + 1) as int));
                }
                k += 1;
            }
            out.push('}');
            out.push('}');
            proof {
                lemma_tag_strings();
                assert(out@ =~= old(out)@ + enc_value(v@));
            }
            Ok(())
        },
        ValueTypes::List(vs) => {
            out.push('{');
            out.push('"');
            out.push('L');
            out.push('i');
            out.push('s');
            out.push('t');
            out.push('"');
            out.push(':');
            out.push('[');
            proof {
                lemma_view_list_index(vs@);
            }
            let ghost m = view_list(vs@);
            let ghost base = out@;
            let mut k: usize = 0;
            while k < vs.len()
                invariant
                    m == view_list(vs@),
                    m.len() == vs@.len(),
                    forall|x: int| 0 <= x < vs@.len() ==> #[trigger] m[x]
                        == crate::model::view_value(vs@[x]),
                    k <= vs@.len(),
                    base + enc_elems(m, 0) == out@ + enc_elems(m, k as int),
                    forall|x: int| 0 <= x < k ==> wf_value(#[trigger] m[x]),
                decreases vs@.len() - k,
            {
                proof {
                    assert(decreases_to!(*v => *vs));
                    assert(decreases_to!(*vs => vs@[k as int]));
                }
                match push_value(out, &vs[k]) {
                    Ok(()) => {},
                    Err(e) => {
                        proof {
                            assert(v@ == SpecValue::List(m));
                            assert(!wf_value(m[k as int]));
                            assert(!wf_value(v@));
                        }
                        return Err(e);
                    },
                }
                if k + 1 < vs.len() {
                    out.push(',');
                }
                proof {
                    assert(base + enc_elems(m, 0) =~= out@ + enc_elems(m, (k + 1) as int));
                }
                k += 1;
            }
            out.push(']');
            out.push('}');
            proof {
                lemma_tag_strings();
                assert(out@ =~= old(out)@ + enc_value(v@));
            }
            Ok(())
        },
    }
}

} // verus!
