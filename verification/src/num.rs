//! Verified recognizers and parsers for the numeric literals that appear in
//! measurement values: signed 64-bit integers with the exact semantics of
//! `i64::from_str`, and the literal grammar accepted by `f64::from_str`
//! (the floating-point value itself is never computed here; the library
//! stores the text and leaves conversion to its callers).

use vstd::prelude::*;

verus! {

pub open spec fn is_digit(c: char) -> bool {
    '0' as int <= c as int && c as int <= '9' as int
}

pub open spec fn digit_val(c: char) -> int {
    c as int - '0' as int
}

pub open spec fn all_digits(s: Seq<char>) -> bool {
    forall|k: int| 0 <= k < s.len() ==> is_digit(s[k])
}

/// Value of a digit string read in base ten.
pub open spec fn digits_value(s: Seq<char>) -> int
    decreases s.len(),
{
    if s.len() == 0 {
        0
    } else {
        10 * digits_value(s.drop_last()) + digit_val(s.last())
    }
}

/// Splits an optional leading sign off a literal: whether it is negative,
/// and the rest.
pub open spec fn sign_split(s: Seq<char>) -> (bool, Seq<char>) {
    if s.len() > 0 && s[0] == '-' {
        (true, s.drop_first())
    } else if s.len() > 0 && s[0] == '+' {
        (false, s.drop_first())
    } else {
        (false, s)
    }
}

/// The integer a signed digit string denotes.
pub open spec fn int_text_value(s: Seq<char>) -> int {
    let (neg, d) = sign_split(s);
    if neg {
        -digits_value(d)
    } else {
        digits_value(d)
    }
}

/// Whether `s` is exactly what `i64::from_str` accepts: an optional sign,
/// one or more digits, and a value within the type's range.
pub open spec fn is_i64_text(s: Seq<char>) -> bool {
    let (neg, d) = sign_split(s);
    d.len() > 0 && all_digits(d) && i64::MIN <= int_text_value(s) <= i64::MAX
}

pub proof fn lemma_digits_value_nonneg(s: Seq<char>)
    requires
        all_digits(s),
    ensures
        digits_value(s) >= 0,
    decreases s.len(),
{
    if s.len() > 0 {
        assert(is_digit(s.last()));
        lemma_digits_value_nonneg(s.drop_last());
    }
}

/// A digit string is worth at least any of its prefixes.
proof fn lemma_digits_value_prefix(s: Seq<char>, i: int)
    requires
        all_digits(s),
        0 <= i <= s.len(),
    ensures
        digits_value(s) >= digits_value(s.subrange(0, i)),
    decreases s.len() - i,
{
    if i == s.len() {
        assert(s.subrange(0, i) =~= s);
    } else {
        let p = s.subrange(0, i);
        let q = s.subrange(0, i + 1);
        assert(q.drop_last() =~= p);
        assert(all_digits(p)) by {
            assert(forall|k: int| 0 <= k < p.len() ==> p[k] == s[k]);
        }
        lemma_digits_value_nonneg(p);
        assert(is_digit(q.last()));
        assert(digits_value(q) == 10 * digits_value(p) + digit_val(q.last()));
        lemma_digits_value_prefix(s, i + 1);
    }
}

pub fn is_digit_char(c: char) -> (r: bool)
    ensures
        r == is_digit(c),
{
    let u = c as u32;
    48 <= u && u <= 57
}

/// Parses a signed decimal 64-bit integer, exactly as `i64::from_str` does:
/// an optional `+` or `-`, then one or more digits; anything else, or a
/// value out of range, is rejected.
pub fn parse_i64(s: &[char]) -> (r: Option<i64>)
    ensures
        match r {
            Some(v) => is_i64_text(s@) && v == int_text_value(s@),
            None => !is_i64_text(s@),
        },
{
    let n = s.len();
    let mut idx: usize = 0;
    let mut neg = false;
    if n > 0 && (s[0] == '-' || s[0] == '+') {
        neg = s[0] == '-';
        idx = 1;
    }
    let ghost d = sign_split(s@).1;
    proof {
        assert(d =~= s@.subrange(idx as int, n as int));
        assert(sign_split(s@).0 == neg);
    }
    if idx >= n {
        return None;
    }
    let limit: u64 = if neg {
        9223372036854775808
    } else {
        9223372036854775807
    };
    let mut acc: u64 = 0;
    let mut i: usize = idx;
    while i < n
        invariant
            idx <= i <= n,
            n == s@.len(),
            d =~= s@.subrange(idx as int, n as int),
            sign_split(s@) == (neg, d),
            limit == if neg {
                9223372036854775808u64
            } else {
                9223372036854775807u64
            },
            forall|k: int| 0 <= k < i - idx ==> is_digit(d[k]),
            acc == digits_value(d.subrange(0, i - idx)),
            acc <= limit,
        decreases n - i,
    {
        let c = s[i];
        if !is_digit_char(c) {
            proof {
                assert(d[i - idx] == s@[i as int]);
                assert(!is_digit(d[i - idx]));
                assert(!all_digits(d));
            }
            return None;
        }
        let dv: u64 = ((c as u32) - 48) as u64;
        let ghost pre = d.subrange(0, i - idx);
        let ghost cur = d.subrange(0, i + 1 - idx);
        proof {
            assert(cur.drop_last() =~= pre);
            assert(cur.last() == d[i - idx] == s@[i as int]);
            assert(digits_value(cur) == 10 * digits_value(pre) + digit_val(cur.last()));
        }
        if acc > (limit - dv) / 10 {
            // The value read so far already exceeds the range, and further
            // digits can only grow it.
            proof {
                assert(10 * acc + dv > limit) by (nonlinear_arith)
                    requires
                        acc > (limit - dv) / 10,
                        dv <= 9,
                        limit >= dv,
                ;
                if is_i64_text(s@) {
                    assert(all_digits(d));
                    lemma_digits_value_prefix(d, i + 1 - idx);
                    assert(digits_value(d) >= digits_value(cur));
                    if neg {
                        assert(int_text_value(s@) == -digits_value(d));
                        assert(digits_value(d) > 9223372036854775808);
                        assert(int_text_value(s@) < i64::MIN);
                    } else {
                        assert(int_text_value(s@) == digits_value(d));
                        assert(int_text_value(s@) > i64::MAX);
                    }
                }
            }
            return None;
        }
        proof {
            assert(10 * acc + dv <= limit) by (nonlinear_arith)
                requires
                    acc <= (limit - dv) / 10,
                    dv <= 9,
                    limit >= dv,
            ;
        }
        acc = acc * 10 + dv;
        i = i + 1;
    }
    proof {
        assert(d.subrange(0, n - idx) =~= d);
        assert(all_digits(d));
        assert(acc == digits_value(d));
        if neg {
            lemma_digits_value_nonneg(d);
            assert(int_text_value(s@) == -digits_value(d) >= -9223372036854775808);
        }
        assert(is_i64_text(s@));
    }
    if neg {
        if acc == 9223372036854775808 {
            Some(i64::MIN)
        } else {
            Some(-(acc as i64))
        }
    } else {
        Some(acc as i64)
    }
}

/// Index of the first exponent marker (`e` or `E`) at or after `i`, or -1.
pub open spec fn find_exp(s: Seq<char>, i: int) -> int
    decreases s.len() - i,
{
    if i < 0 || i >= s.len() {
        -1
    } else if s[i] == 'e' || s[i] == 'E' {
        i
    } else {
        find_exp(s, i + 1)
    }
}

pub proof fn lemma_find_exp(s: Seq<char>, i: int)
    requires
        0 <= i <= s.len(),
    ensures
        find_exp(s, i) == -1 ==> forall|k: int| i <= k < s.len() ==> s[k] != 'e' && s[k] != 'E',
        find_exp(s, i) != -1 ==> i <= find_exp(s, i) < s.len() && (s[find_exp(s, i)] == 'e' || s[
            find_exp(s, i)
        ] == 'E') && forall|k: int| i <= k < find_exp(s, i) ==> s[k] != 'e' && s[k] != 'E',
    decreases s.len() - i,
{
    if i < s.len() && s[i] != 'e' && s[i] != 'E' {
        lemma_find_exp(s, i + 1);
    }
}

/// Character identity up to ASCII case.
pub open spec fn char_lower(c: char) -> int {
    if 'A' as int <= c as int && c as int <= 'Z' as int {
        c as int + 32
    } else {
        c as int
    }
}

/// Sequence equality up to ASCII case.
pub open spec fn eq_ci(a: Seq<char>, b: Seq<char>) -> bool {
    a.len() == b.len() && forall|k: int| 0 <= k < a.len() ==> char_lower(a[k]) == char_lower(b[k])
}

/// The case-insensitive special floating-point words.
pub open spec fn is_special_float(b: Seq<char>) -> bool {
    eq_ci(b, seq!['i', 'n', 'f']) || eq_ci(b, seq!['i', 'n', 'f', 'i', 'n', 'i', 't', 'y'])
        || eq_ci(b, seq!['n', 'a', 'n'])
}

/// A mantissa: digits with at most one dot, and at least one digit.
pub open spec fn is_mantissa(m: Seq<char>) -> bool {
    let di = crate::text::find_char(m, '.', 0);
    if di < 0 {
        m.len() > 0 && all_digits(m)
    } else {
        let ip = m.subrange(0, di);
        let fp = m.subrange(di + 1, m.len() as int);
        all_digits(ip) && all_digits(fp) && ip.len() + fp.len() > 0
    }
}

/// An exponent: an optional sign and one or more digits.
pub open spec fn is_exp_part(p: Seq<char>) -> bool {
    let (_, d) = sign_split(p);
    d.len() > 0 && all_digits(d)
}

/// Whether `s` is a literal that `f64::from_str` accepts: an optional sign,
/// then one of the special words or a mantissa with an optional exponent.
pub open spec fn is_float_text(s: Seq<char>) -> bool {
    let (_, b) = sign_split(s);
    is_special_float(b) || {
        let ei = find_exp(b, 0);
        if ei < 0 {
            is_mantissa(b)
        } else {
            is_mantissa(b.subrange(0, ei)) && is_exp_part(b.subrange(ei + 1, b.len() as int))
        }
    }
}

fn char_lower_u32(c: char) -> (r: u32)
    ensures
        r == char_lower(c),
{
    let u = c as u32;
    if 65 <= u && u <= 90 {
        u + 32
    } else {
        u
    }
}

/// Whether `b` reads as `inf`, `infinity` or `nan`, ignoring case.
fn is_special_float_chars(b: &[char]) -> (r: bool)
    ensures
        r == is_special_float(b@),
{
    if b.len() == 3 {
        let inf = char_lower_u32(b[0]) == 'i' as u32 && char_lower_u32(b[1]) == 'n' as u32
            && char_lower_u32(b[2]) == 'f' as u32;
        let nan = char_lower_u32(b[0]) == 'n' as u32 && char_lower_u32(b[1]) == 'a' as u32
            && char_lower_u32(b[2]) == 'n' as u32;
        proof {
            if !inf {
                assert(!eq_ci(b@, seq!['i', 'n', 'f']));
            }
            if !nan {
                assert(!eq_ci(b@, seq!['n', 'a', 'n']));
            }
        }
        inf || nan
    } else if b.len() == 8 {
        let r = char_lower_u32(b[0]) == 'i' as u32 && char_lower_u32(b[1]) == 'n' as u32
            && char_lower_u32(b[2]) == 'f' as u32 && char_lower_u32(b[3]) == 'i' as u32
            && char_lower_u32(b[4]) == 'n' as u32 && char_lower_u32(b[5]) == 'i' as u32
            && char_lower_u32(b[6]) == 't' as u32 && char_lower_u32(b[7]) == 'y' as u32;
        proof {
            if !r {
                assert(!eq_ci(b@, seq!['i', 'n', 'f', 'i', 'n', 'i', 't', 'y']));
            }
        }
        r
    } else {
        false
    }
}

/// Whether every character of `s[from..]` is a digit.
fn all_digits_from(s: &[char], from: usize) -> (r: bool)
    requires
        from <= s@.len(),
    ensures
        r == all_digits(s@.subrange(from as int, s@.len() as int)),
{
    let ghost part = s@.subrange(from as int, s@.len() as int);
    let n = s.len();
    let mut i: usize = from;
    while i < n
        invariant
            from <= i <= n,
            n == s@.len(),
            part =~= s@.subrange(from as int, n as int),
            forall|k: int| 0 <= k < i - from ==> is_digit(part[k]),
        decreases n - i,
    {
        if !is_digit_char(s[i]) {
            proof {
                assert(part[i - from] == s@[i as int]);
            }
            return false;
        }
        i = i + 1;
    }
    true
}

/// Whether `m` is a mantissa.
fn is_mantissa_chars(m: &[char]) -> (r: bool)
    ensures
        r == is_mantissa(m@),
{
    let n = m.len();
    let mut i: usize = 0;
    while i < n && m[i] != '.'
        invariant
            0 <= i <= n,
            n == m@.len(),
            forall|k: int| 0 <= k < i ==> m@[k] != '.',
        decreases n - i,
    {
        i = i + 1;
    }
    let dot: Option<usize> = if i < n {
        Some(i)
    } else {
        None
    };
    proof {
        crate::text::lemma_find_char(m@, '.', 0);
    }
    match dot {
        None => {
            proof {
                assert(crate::text::find_char(m@, '.', 0) == -1) by {
                    if crate::text::find_char(m@, '.', 0) != -1 {
                        assert(m@[crate::text::find_char(m@, '.', 0)] == '.');
                    }
                }
            }
            if n == 0 {
                return false;
            }
            let r = all_digits_from(m, 0);
            proof {
                assert(m@.subrange(0, n as int) =~= m@);
            }
            r
        },
        Some(j) => {
            proof {
                let f = crate::text::find_char(m@, '.', 0);
                assert(f == j) by {
                    if f == -1 {
                        assert(m@[j as int] != '.');
                    } else if f < j {
                        assert(m@[f] != '.');
                    } else if j < f {
                        assert(m@[j as int] != '.');
                    }
                }
            }
            if n == 1 {
                // only the dot: no digit anywhere
                proof {
                    assert(m@.subrange(0, j as int).len() + m@.subrange(
                        j + 1,
                        n as int,
                    ).len() == 0);
                }
                return false;
            }
            let prefix = crate::text::subvec(m, 0, j);
            let ip_ok = all_digits_from(prefix.as_slice(), 0);
            proof {
                assert(prefix@.subrange(0, prefix@.len() as int) =~= m@.subrange(0, j as int));
                assert(ip_ok == all_digits(m@.subrange(0, j as int)));
            }
            let fp_ok = all_digits_from(m, j + 1);
            proof {
                assert(m@.subrange(0, j as int).len() + m@.subrange(j + 1, n as int).len() == n
                    - 1 > 0);
            }
            ip_ok && fp_ok
        },
    }
}

/// Whether `p` is an exponent part.
fn is_exp_part_chars(p: &[char]) -> (r: bool)
    ensures
        r == is_exp_part(p@),
{
    let n = p.len();
    let mut idx: usize = 0;
    if n > 0 && (p[0] == '-' || p[0] == '+') {
        idx = 1;
    }
    proof {
        assert(sign_split(p@).1 =~= p@.subrange(idx as int, n as int));
    }
    if idx >= n {
        return false;
    }
    all_digits_from(p, idx)
}

/// Whether `s` is a literal that `f64::from_str` accepts.
pub fn is_float_chars(s: &[char]) -> (r: bool)
    ensures
        r == is_float_text(s@),
{
    let n = s.len();
    let mut idx: usize = 0;
    if n > 0 && (s[0] == '-' || s[0] == '+') {
        idx = 1;
    }
    let ghost b = sign_split(s@).1;
    let body = crate::text::subvec(s, idx, n);
    proof {
        assert(b =~= body@);
    }
    if is_special_float_chars(body.as_slice()) {
        return true;
    }
    let bn = body.len();
    let mut i: usize = 0;
    while i < bn && body[i] != 'e' && body[i] != 'E'
        invariant
            0 <= i <= bn,
            bn == body@.len(),
            forall|k: int| 0 <= k < i ==> body@[k] != 'e' && body@[k] != 'E',
        decreases bn - i,
    {
        i = i + 1;
    }
    let e_pos: Option<usize> = if i < bn {
        Some(i)
    } else {
        None
    };
    proof {
        lemma_find_exp(body@, 0);
    }
    match e_pos {
        None => {
            proof {
                assert(find_exp(body@, 0) == -1) by {
                    let f = find_exp(body@, 0);
                    if f != -1 {
                        assert(body@[f] != 'e' && body@[f] != 'E');
                    }
                }
            }
            is_mantissa_chars(body.as_slice())
        },
        Some(j) => {
            proof {
                let f = find_exp(body@, 0);
                assert(f == j) by {
                    if f == -1 {
                        assert(body@[j as int] != 'e' && body@[j as int] != 'E');
                    } else if f < j {
                        assert(body@[f] != 'e' && body@[f] != 'E');
                    } else if j < f {
                        assert(body@[j as int] != 'e' && body@[j as int] != 'E');
                    }
                }
            }
            let mant = crate::text::subvec(body.as_slice(), 0, j);
            let expp = crate::text::subvec(body.as_slice(), j + 1, bn);
            is_mantissa_chars(mant.as_slice()) && is_exp_part_chars(expp.as_slice())
        },
    }
}

} // verus!
