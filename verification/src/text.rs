//! Character-level helpers: conversions between strings and character
//! vectors, and executable forms of the grammar's character classes.
use vstd::prelude::*;
use vstd::string::StrSliceExecFns;
use crate::grammar::{
    digit_char, digits_end, frac_end, exp_end, hex_digit_char, hex_val, is_digit, is_hex_digit,
    is_num_char, is_number_lit, is_ws, num_end, skip_ws,
};

verus! {

/// Relies on String::push: appends the given character to the string.
#[verifier::external_body]
pub(crate) fn push_char(s: &mut String, c: char)
    ensures
        final(s)@ == old(s)@.push(c),
{
    s.push(c);
}

/// Relies on char::from_u32: for a value below 0xD800 or in
/// 0xE000..=0x10FFFF it returns the character with that code point.
#[verifier::external_body]
pub(crate) fn char_from_code(x: u32) -> (c: char)
    requires
        x < 0xD800 || (0xE000 <= x && x < 0x110000),
    ensures
        c as u32 == x,
{
    char::from_u32(x).unwrap()
}

pub(crate) fn chars_to_string(v: &Vec<char>) -> (s: String)
    ensures
        s@ == v@,
{
    let mut s = String::new();
    let mut k: usize = 0;
    while k < v.len()
        invariant
            k <= v@.len(),
            s@ == v@.take(k as int),
        decreases v@.len() - k,
    {
        push_char(&mut s, v[k]);
        proof {
            assert(v@.take((k + 1) as int) =~= v@.take(k as int).push(v@[k as int]));
        }
        k += 1;
    }
    proof {
        assert(v@.take(v@.len() as int) =~= v@);
    }
    s
}

pub(crate) fn str_to_chars(s: &str) -> (v: Vec<char>)
    ensures
        v@ == s@,
{
    let n = s.unicode_len();
    let mut v: Vec<char> = Vec::new();
    let mut k: usize = 0;
    while k < n
        invariant
            n == s@.len(),
            k <= n,
            v@ == s@.take(k as int),
        decreases n - k,
    {
        let c = s.get_char(k);
        v.push(c);
        proof {
            assert(s@.take((k + 1) as int) =~= s@.take(k as int).push(s@[k as int]));
        }
        k += 1;
    }
    proof {
        assert(s@.take(n as int) =~= s@);
    }
    v
}

pub(crate) fn push_all(out: &mut Vec<char>, v: &Vec<char>)
    ensures
        final(out)@ == old(out)@ + v@,
{
    let mut k: usize = 0;
    while k < v.len()
        invariant
            k <= v@.len(),
            out@ == old(out)@ + v@.take(k as int),
        decreases v@.len() - k,
    {
        out.push(v[k]);
        proof {
            assert(old(out)@ + v@.take((k + 1) as int) =~= (old(out)@ + v@.take(k as int)).push(
                v@[k as int],
            ));
        }
        k += 1;
    }
    proof {
        assert(v@.take(v@.len() as int) =~= v@);
    }
}

pub(crate) fn eq_str(a: &String, b: &str) -> (r: bool)
    ensures
        r == (a@ == b@),
{
    let bs: String = b.to_owned();
    a.eq(&bs)
}

pub(crate) fn ws_p(c: char) -> (r: bool)
    ensures
        r == is_ws(c),
{
    c == ' ' || c == '\t' || c == '\n' || c == '\r'
}

pub(crate) fn digit_p(c: char) -> (r: bool)
    ensures
        r == is_digit(c),
{
    let u = c as u32;
    48 <= u && u <= 57
}

pub(crate) fn num_p(c: char) -> (r: bool)
    ensures
        r == is_num_char(c),
{
    let u = c as u32;
    (48 <= u && u <= 57) || c == '-' || c == '+' || c == '.' || c == 'e' || c == 'E'
}

pub(crate) fn hex_p(c: char) -> (r: bool)
    ensures
        r == is_hex_digit(c),
{
    let u = c as u32;
    (48 <= u && u <= 57) || (97 <= u && u <= 102) || (65 <= u && u <= 70)
}

pub(crate) fn hex_value(c: char) -> (r: u32)
    requires
        is_hex_digit(c),
    ensures
        r == hex_val(c),
        r < 16,
{
    let u = c as u32;
    if 48 <= u && u <= 57 {
        u - 48
    } else if 97 <= u && u <= 102 {
        u - 87
    } else {
        u - 55
    }
}

pub(crate) fn ws_run(s: &Vec<char>, i: usize) -> (j: usize)
    requires
        i <= s@.len(),
    ensures
        j as int == skip_ws(s@, i as int),
        i <= j <= s@.len(),
{
    let mut j = i;
    while j < s.len() && ws_p(s[j])
        invariant
            i <= j <= s@.len(),
            skip_ws(s@, i as int) == skip_ws(s@, j as int),
        decreases s@.len() - j,
    {
        proof {
            assert(skip_ws(s@, j as int) == skip_ws(s@, (j + 1) as int));
        }
        j += 1;
    }
    proof {
        assert(skip_ws(s@, j as int) == j as int);
    }
    j
}

pub(crate) fn digits_run(t: &Vec<char>, i: usize) -> (j: usize)
    requires
        i <= t@.len(),
    ensures
        j as int == digits_end(t@, i as int),
        i <= j <= t@.len(),
{
    let mut j = i;
    while j < t.len() && digit_p(t[j])
        invariant
            i <= j <= t@.len(),
            digits_end(t@, i as int) == digits_end(t@, j as int),
        decreases t@.len() - j,
    {
        proof {
            assert(digits_end(t@, j as int) == digits_end(t@, (j + 1) as int));
        }
        j += 1;
    }
    proof {
        assert(digits_end(t@, j as int) == j as int);
    }
    j
}

pub(crate) fn num_run(t: &Vec<char>, i: usize) -> (j: usize)
    requires
        i <= t@.len(),
    ensures
        j as int == num_end(t@, i as int),
        i <= j <= t@.len(),
{
    let mut j = i;
    while j < t.len() && num_p(t[j])
        invariant
            i <= j <= t@.len(),
            num_end(t@, i as int) == num_end(t@, j as int),
        decreases t@.len() - j,
    {
        proof {
            assert(num_end(t@, j as int) == num_end(t@, (j + 1) as int));
        }
        j += 1;
    }
    proof {
        assert(num_end(t@, j as int) == j as int);
    }
    j
}

/// Does `t` have the exact shape of a decimal number literal?
pub(crate) fn check_number(t: &Vec<char>) -> (b: bool)
    ensures
        b == is_number_lit(t@),
{
    let n = t.len();
    let i0: usize = if n > 0 && t[0] == '-' { 1 } else { 0 };
    let i1 = digits_run(t, i0);
    if i1 == i0 {
        return false;
    }
    let i2: usize = if i1 < n && t[i1] == '.' {
        let e = digits_run(t, i1 + 1);
        if e > i1 + 1 {
            e
        } else {
            proof {
                assert(frac_end(t@, i1 as int) == -1);
                assert(exp_end(t@, -1) == -1);
            }
            return false;
        }
    } else {
        i1
    };
    proof {
        assert(i2 as int == frac_end(t@, i1 as int));
    }
    let i3: usize = if i2 < n && (t[i2] == 'e' || t[i2] == 'E') {
        let k: usize = if i2 + 1 < n && (t[i2 + 1] == '+' || t[i2 + 1] == '-') {
            i2 + 2
        } else {
            i2 + 1
        };
        let e = digits_run(t, k);
        if e > k {
            e
        } else {
            proof {
                assert(exp_end(t@, i2 as int) == -1);
            }
            return false;
        }
    } else {
        i2
    };
    proof {
        assert(i3 as int == exp_end(t@, i2 as int));
    }
    i3 == n
}

pub(crate) fn digit_ch(n: u8) -> (c: char)
    requires
        n < 10,
    ensures
        c == digit_char(n as int),
{
    if n == 0 { '0' }
    else if n == 1 { '1' }
    else if n == 2 { '2' }
    else if n == 3 { '3' }
    else if n == 4 { '4' }
    else if n == 5 { '5' }
    else if n == 6 { '6' }
    else if n == 7 { '7' }
    else if n == 8 { '8' }
    else { '9' }
}

pub(crate) fn hex_ch(n: u32) -> (c: char)
    requires
        n < 16,
    ensures
        c == hex_digit_char(n as int),
{
    if n < 10 {
        digit_ch(n as u8)
    } else if n == 10 { 'a' }
    else if n == 11 { 'b' }
    else if n == 12 { 'c' }
    else if n == 13 { 'd' }
    else if n == 14 { 'e' }
    else { 'f' }
}

} // verus!
