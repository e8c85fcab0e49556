//! The JSON number grammar: a scanner over character sequences, and the
//! decimal rendering of integers as number tokens.
//!
//! A number value is stored as its token text (the exact character sequence
//! matched by the JSON number grammar), so serialization can emit it verbatim
//! and parsing the output gives back the same token.

use vstd::prelude::*;

verus! {

/// A decimal digit `0` ..= `9`.
pub open spec fn is_digit(c: char) -> bool {
    48 <= c as u32 && c as u32 <= 57
}

/// First position at or after `i` that does not hold a digit.
pub open spec fn scan_digits(s: Seq<char>, i: int) -> int
    decreases s.len() - i,
{
    if 0 <= i && i < s.len() && is_digit(s[i]) {
        scan_digits(s, i + 1)
    } else {
        i
    }
}

/// After the integer part: an optional fraction `.` followed by one or more
/// digits. `None` on a dot with no digit after it.
pub open spec fn scan_frac(s: Seq<char>, i: int) -> Option<int> {
    if 0 <= i && i < s.len() && s[i] == '.' {
        if i + 1 < s.len() && is_digit(s[i + 1]) {
            Some(scan_digits(s, i + 1))
        } else {
            None
        }
    } else {
        Some(i)
    }
}

/// After the fraction: an optional exponent `e`/`E`, an optional sign, and one
/// or more digits. `None` on an exponent marker with no digit after it.
pub open spec fn scan_exp(s: Seq<char>, i: int) -> Option<int> {
    if 0 <= i && i < s.len() && (s[i] == 'e' || s[i] == 'E') {
        let j = if i + 1 < s.len() && (s[i + 1] == '+' || s[i + 1] == '-') {
            i + 2
        } else {
            i + 1
        };
        if j < s.len() && is_digit(s[j]) {
            Some(scan_digits(s, j))
        } else {
            None
        }
    } else {
        Some(i)
    }
}

/// The whole JSON number grammar, starting at `i`: optional `-`, an integer
/// part (`0`, or a nonzero digit followed by digits), optional fraction,
/// optional exponent. Returns the position after the longest match, or `None`
/// when no number starts at `i`.
pub open spec fn scan_number(s: Seq<char>, i: int) -> Option<int> {
    let i1 = if 0 <= i && i < s.len() && s[i] == '-' {
        i + 1
    } else {
        i
    };
    if !(i1 < s.len() && is_digit(s[i1])) {
        None
    } else {
        let i2 = if s[i1] == '0' {
            i1 + 1
        } else {
            scan_digits(s, i1)
        };
        match scan_frac(s, i2) {
            Option::None => Option::<int>::None,
            Option::Some(i3) => scan_exp(s, i3),
        }
    }
}

/// A valid number token: the grammar matches the whole sequence.
pub open spec fn is_number_token(t: Seq<char>) -> bool {
    scan_number(t, 0) == Some(t.len() as int)
}

/// The character for the decimal digit `d`.
pub open spec fn digit_char(d: int) -> char {
    ((48 + d) as u8) as char
}

/// The decimal digits of `n`, most significant first.
pub open spec fn spec_udec(n: nat) -> Seq<char>
    decreases n,
{
    if n < 10 {
        seq![digit_char(n as int)]
    } else {
        spec_udec(n / 10).push(digit_char((n % 10) as int))
    }
}

/// The decimal token for a signed integer: a `-` sign where negative, then
/// the digits of the magnitude.
pub open spec fn spec_int_token(n: int) -> Seq<char> {
    if n < 0 {
        seq!['-'] + spec_udec((-n) as nat)
    } else {
        spec_udec(n as nat)
    }
}

/// Appends the decimal digits of `m` to `out`.
pub fn push_udec(m: u64, out: &mut Vec<char>)
    ensures
        final(out)@ == old(out)@ + spec_udec(m as nat),
    decreases m,
{
    if m < 10 {
        let d: u8 = 48 + (m as u8);
        out.push(d as char);
        assert(out@ =~= old(out)@ + spec_udec(m as nat));
    } else {
        push_udec(m / 10, out);
        let d: u8 = 48 + ((m % 10) as u8);
        out.push(d as char);
        assert(out@ =~= old(out)@ + spec_udec(m as nat));
    }
}

/// Appends the decimal token of `n` to `out`.
pub fn push_int_token(n: i64, out: &mut Vec<char>)
    ensures
        final(out)@ == old(out)@ + spec_int_token(n as int),
{
    if n < 0 {
        out.push('-');
        let m: u64 = ((-(n + 1)) as u64) + 1;
        assert(m == -(n as int));
        push_udec(m, out);
        assert(out@ =~= old(out)@ + spec_int_token(n as int));
    } else {
        push_udec(n as u64, out);
    }
}

/// Every character of a decimal rendering is a digit, and the leading digit of
/// a nonzero integer is not `0`.
pub proof fn lemma_udec_shape(n: nat)
    ensures
        spec_udec(n).len() >= 1,
        forall|i: int| 0 <= i < spec_udec(n).len() ==> is_digit(#[trigger] spec_udec(n)[i]),
        n >= 1 ==> spec_udec(n)[0] != '0',
        n == 0 ==> spec_udec(n) == seq!['0'],
    decreases n,
{
    if n < 10 {
        assert(spec_udec(n) == seq![digit_char(n as int)]);
    } else {
        lemma_udec_shape(n / 10);
    }
}

/// A run of digits ending at the first non-digit is scanned exactly.
pub proof fn lemma_scan_digits_run(s: Seq<char>, i: int, j: int)
    requires
        0 <= i <= j <= s.len(),
        forall|k: int| i <= k < j ==> is_digit(#[trigger] s[k]),
        j == s.len() || !is_digit(s[j]),
    ensures
        scan_digits(s, i) == j,
    decreases j - i,
{
    if i < j {
        lemma_scan_digits_run(s, i + 1, j);
    }
}

/// The digit scan stays within the input.
pub proof fn lemma_scan_digits_bounds(s: Seq<char>, i: int)
    requires
        0 <= i <= s.len(),
    ensures
        i <= scan_digits(s, i) <= s.len(),
    decreases s.len() - i,
{
    if i < s.len() && is_digit(s[i]) {
        lemma_scan_digits_bounds(s, i + 1);
    }
}

/// A matched number token is not empty and stays within the input.
pub proof fn lemma_scan_number_bounds(s: Seq<char>, i: int)
    requires
        0 <= i <= s.len(),
        scan_number(s, i) is Some,
    ensures
        i < scan_number(s, i)->Some_0 <= s.len(),
{
    let i1 = if 0 <= i && i < s.len() && s[i] == '-' {
        i + 1
    } else {
        i
    };
    let i2 = if s[i1] == '0' {
        i1 + 1
    } else {
        scan_digits(s, i1)
    };
    lemma_scan_digits_bounds(s, i1 + 1);
    assert(i2 >= i1 + 1);
    assert(i2 <= s.len());
    let i3 = scan_frac(s, i2)->Some_0;
    if 0 <= i2 && i2 < s.len() && s[i2] == '.' {
        lemma_scan_digits_bounds(s, i2 + 1);
    }
    assert(i2 <= i3 <= s.len());
    if 0 <= i3 && i3 < s.len() && (s[i3] == 'e' || s[i3] == 'E') {
        let j = if i3 + 1 < s.len() && (s[i3 + 1] == '+' || s[i3 + 1] == '-') {
            i3 + 2
        } else {
            i3 + 1
        };
        lemma_scan_digits_bounds(s, j + 1);
    }
}

/// Scans a digit run, as `scan_digits` does.
pub fn ex_scan_digits(s: &Vec<char>, i: usize) -> (r: usize)
    requires
        i <= s@.len(),
    ensures
        r as int == scan_digits(s@, i as int),
        i <= r <= s@.len(),
    decreases s@.len() - i,
{
    if i < s.len() {
        let u = s[i] as u32;
        if 48 <= u && u <= 57 {
            return ex_scan_digits(s, i + 1);
        }
    }
    i
}

/// Scans a number token, as `scan_number` does: the position after the
/// longest match, or `None` when no number starts at `i`.
pub fn ex_scan_number(s: &Vec<char>, i: usize) -> (r: Option<usize>)
    requires
        i <= s@.len(),
    ensures
        match r {
            Some(k) => scan_number(s@, i as int) == Some(k as int) && i < k <= s@.len(),
            None => scan_number(s@, i as int) is None,
        },
{
    let n = s.len();
    let mut i1 = i;
    if i < n && s[i] == '-' {
        i1 = i + 1;
    }
    if !(i1 < n) {
        return None;
    }
    let u1 = s[i1] as u32;
    if !(48 <= u1 && u1 <= 57) {
        return None;
    }
    let i2 = if s[i1] == '0' {
        i1 + 1
    } else {
        ex_scan_digits(s, i1)
    };
    let mut i3 = i2;
    if i2 < n && s[i2] == '.' {
        if i2 + 1 < n {
            let u2 = s[i2 + 1] as u32;
            if 48 <= u2 && u2 <= 57 {
                i3 = ex_scan_digits(s, i2 + 1);
            } else {
                return None;
            }
        } else {
            return None;
        }
    }
    proof {
        assert(scan_frac(s@, i2 as int) == Some(i3 as int));
    }
    let mut i4 = i3;
    if i3 < n && (s[i3] == 'e' || s[i3] == 'E') {
        let j = if i3 + 1 < n && (s[i3 + 1] == '+' || s[i3 + 1] == '-') {
            i3 + 2
        } else {
            i3 + 1
        };
        if j < n {
            let u3 = s[j] as u32;
            if 48 <= u3 && u3 <= 57 {
                i4 = ex_scan_digits(s, j);
            } else {
                return None;
            }
        } else {
            return None;
        }
    }
    proof {
        assert(scan_exp(s@, i3 as int) == Some(i4 as int));
        assert(scan_number(s@, i as int) == Some(i4 as int));
        lemma_scan_number_bounds(s@, i as int);
    }
    Some(i4)
}

/// A character that could extend a number token: a digit, a dot, an exponent
/// marker or a sign. The serializer never writes one right after a number.
pub open spec fn num_ext(c: char) -> bool {
    is_digit(c) || c == '.' || c == 'e' || c == 'E' || c == '+' || c == '-'
}

/// What the digit scan consumed: digits up to the first non-digit.
pub proof fn lemma_scan_digits_chars(s: Seq<char>, i: int)
    requires
        0 <= i <= s.len(),
    ensures
        i <= scan_digits(s, i) <= s.len(),
        forall|k: int| i <= k < scan_digits(s, i) ==> is_digit(#[trigger] s[k]),
        scan_digits(s, i) == s.len() || !is_digit(s[scan_digits(s, i)]),
    decreases s.len() - i,
{
    if i < s.len() && is_digit(s[i]) {
        lemma_scan_digits_chars(s, i + 1);
    }
}

/// A digit run of an embedded token is scanned to the same boundary.
proof fn lemma_embed_digit_run(t: Seq<char>, s: Seq<char>, i: int, a: int, b: int)
    requires
        0 <= a <= b <= t.len(),
        i >= 0,
        i + t.len() <= s.len(),
        forall|k: int| 0 <= k < t.len() ==> s[i + k] == #[trigger] t[k],
        forall|k: int| a <= k < b ==> is_digit(#[trigger] t[k]),
        b == t.len() || !is_digit(t[b]),
        i + t.len() == s.len() || !num_ext(s[i + t.len()]),
    ensures
        scan_digits(s, i + a) == i + b,
{
    assert forall|k: int| i + a <= k < i + b implies is_digit(#[trigger] s[k]) by {
        assert(s[i + (k - i)] == t[k - i]);
    }
    if b < t.len() {
        assert(s[i + b] == t[b]);
    }
    lemma_scan_digits_run(s, i + a, i + b);
}

/// A valid number token embedded at `i`, followed by nothing that could
/// extend it, is scanned exactly.
pub proof fn lemma_scan_number_embed(t: Seq<char>, s: Seq<char>, i: int)
    requires
        is_number_token(t),
        0 <= i,
        i + t.len() <= s.len(),
        forall|k: int| 0 <= k < t.len() ==> s[i + k] == #[trigger] t[k],
        i + t.len() == s.len() || !num_ext(s[i + t.len()]),
    ensures
        scan_number(s, i) == Some(i + t.len() as int),
{
    let n = t.len() as int;
    let i1t: int = if t[0] == '-' {
        1
    } else {
        0
    };
    assert(s[i + 0] == t[0]);
    assert(i1t < n && is_digit(t[i1t]));
    assert(s[i + i1t] == t[i1t]);
    let i2t: int = if t[i1t] == '0' {
        i1t + 1
    } else {
        scan_digits(t, i1t)
    };
    lemma_scan_digits_chars(t, i1t);
    if t[i1t] != '0' {
        lemma_embed_digit_run(t, s, i, i1t, i2t);
        assert(scan_digits(s, i + i1t) == i + i2t);
    }
    assert(scan_frac(t, i2t) is Some);
    let i3t = scan_frac(t, i2t)->Some_0;
    if 0 <= i2t && i2t < n && t[i2t] == '.' {
        assert(i2t + 1 < n && is_digit(t[i2t + 1]));
        lemma_scan_digits_chars(t, i2t + 1);
        assert(i3t == scan_digits(t, i2t + 1));
        lemma_embed_digit_run(t, s, i, i2t + 1, i3t);
        assert(scan_frac(s, i + i2t) == Some(i + i3t));
    } else {
        assert(i3t == i2t);
        if i2t < n {
            assert(s[i + i2t] == t[i2t] && t[i2t] != '.');
        }
        assert(scan_frac(s, i + i2t) == Some(i + i3t));
    }
    assert(scan_exp(t, i3t) == Some(n));
    if 0 <= i3t && i3t < n && (t[i3t] == 'e' || t[i3t] == 'E') {
        let jt: int = if i3t + 1 < n && (t[i3t + 1] == '+' || t[i3t + 1] == '-') {
            i3t + 2
        } else {
            i3t + 1
        };
        assert(jt < n && is_digit(t[jt]));
        assert(scan_digits(t, jt) == n);
        lemma_scan_digits_chars(t, jt);
        assert(s[i + i3t] == t[i3t]);
        if i3t + 1 < n {
            assert(s[i + (i3t + 1)] == t[i3t + 1]);
        }
        lemma_embed_digit_run(t, s, i, jt, n);
        assert(scan_exp(s, i + i3t) == Some(i + n));
    } else {
        assert(i3t == n);
        if i3t < n {
            assert(s[i + i3t] == t[i3t]);
        }
        assert(scan_exp(s, i + i3t) == Some(i + n));
    }
    assert(scan_number(s, i) == Some(i + n));
}

/// What the number scan matched is itself a valid number token.
pub proof fn lemma_scan_number_token(s: Seq<char>, i: int)
    requires
        0 <= i <= s.len(),
        scan_number(s, i) is Some,
    ensures
        is_number_token(s.subrange(i, scan_number(s, i)->Some_0)),
{
    let k = scan_number(s, i)->Some_0;
    lemma_scan_number_bounds(s, i);
    let t = s.subrange(i, k);
    let i1s: int = if s[i] == '-' {
        i + 1
    } else {
        i
    };
    let i2s: int = if s[i1s] == '0' {
        i1s + 1
    } else {
        scan_digits(s, i1s)
    };
    lemma_scan_digits_chars(s, i1s);
    assert(i1s < s.len() && is_digit(s[i1s]));
    if s[i1s] != '0' {
        assert(scan_digits(s, i1s) == scan_digits(s, i1s + 1));
        lemma_scan_digits_chars(s, i1s + 1);
    }
    assert(i1s + 1 <= i2s);
    assert(scan_frac(s, i2s) is Some);
    let i3s = scan_frac(s, i2s)->Some_0;
    if 0 <= i2s && i2s < s.len() && s[i2s] == '.' {
        lemma_scan_digits_chars(s, i2s + 1);
    }
    assert(i2s <= i3s);
    assert(scan_exp(s, i3s) == Some(k));
    if 0 <= i3s && i3s < s.len() && (s[i3s] == 'e' || s[i3s] == 'E') {
        let js: int = if i3s + 1 < s.len() && (s[i3s + 1] == '+' || s[i3s + 1] == '-') {
            i3s + 2
        } else {
            i3s + 1
        };
        lemma_scan_digits_chars(s, js);
        assert(i3s <= k);
    } else {
        assert(i3s == k);
    }
    let i1t = i1s - i;
    let i2t = i2s - i;
    let i3t = i3s - i;
    assert(t[0] == s[i]);
    assert(t[i1t] == s[i1s]);
    assert(i2s <= k);
    if s[i1s] != '0' {
        assert forall|x: int| i1t <= x < i2t implies is_digit(#[trigger] t[x]) by {
            assert(t[x] == s[i + x]);
        }
        if i2t < t.len() {
            assert(t[i2t] == s[i2s]);
        }
        lemma_scan_digits_run(t, i1t, i2t);
    }
    if 0 <= i2s && i2s < s.len() && s[i2s] == '.' {
        assert(i2s + 1 < s.len() && is_digit(s[i2s + 1]));
        assert(i3s == scan_digits(s, i2s + 1));
        assert(i3s <= k);
        assert(i2s + 1 < k);
        assert(t[i2t] == s[i2s]);
        assert(t[i2t + 1] == s[i2s + 1]);
        assert forall|x: int| i2t + 1 <= x < i3t implies is_digit(#[trigger] t[x]) by {
            assert(t[x] == s[i + x]);
        }
        if i3t < t.len() {
            assert(t[i3t] == s[i3s]);
        }
        lemma_scan_digits_run(t, i2t + 1, i3t);
        assert(scan_frac(t, i2t) == Some(i3t));
    } else {
        if i2t < t.len() {
            assert(t[i2t] == s[i2s]);
        }
        assert(scan_frac(t, i2t) == Some(i3t));
    }
    if 0 <= i3s && i3s < s.len() && (s[i3s] == 'e' || s[i3s] == 'E') {
        let js: int = if i3s + 1 < s.len() && (s[i3s + 1] == '+' || s[i3s + 1] == '-') {
            i3s + 2
        } else {
            i3s + 1
        };
        assert(js < s.len() && is_digit(s[js]));
        assert(scan_digits(s, js) == k);
        lemma_scan_digits_chars(s, js);
        assert(js < k);
        let jt = js - i;
        assert(i3t < t.len() && t[i3t] == s[i3s]);
        if i3s + 1 < k {
            assert(t[i3t + 1] == s[i3s + 1]);
        }
        assert(t[jt] == s[js]);
        assert forall|x: int| jt <= x < t.len() implies is_digit(#[trigger] t[x]) by {
            assert(t[x] == s[i + x]);
        }
        lemma_scan_digits_run(t, jt, t.len() as int);
        assert(scan_exp(t, i3t) == Some(t.len() as int));
    } else {
        assert(i3s == k);
        assert(i3t == t.len());
        assert(scan_exp(t, i3t) == Some(t.len() as int));
    }
    assert(scan_number(t, 0) == Some(t.len() as int));
}

/// A valid number token starts with a minus sign or a digit, and holds no
/// whitespace, bracket, comma or quote anywhere.
pub proof fn lemma_number_token_chars(t: Seq<char>)
    requires
        is_number_token(t),
    ensures
        t.len() >= 1,
        t[0] == '-' || is_digit(t[0]),
        forall|k: int| 0 <= k < t.len() ==> num_token_char(#[trigger] t[k]),
{
    let n = t.len() as int;
    let i1t: int = if t[0] == '-' {
        1
    } else {
        0
    };
    assert(i1t < n && is_digit(t[i1t]));
    let i2t: int = if t[i1t] == '0' {
        i1t + 1
    } else {
        scan_digits(t, i1t)
    };
    lemma_scan_digits_chars(t, i1t);
    assert(scan_frac(t, i2t) is Some);
    let i3t = scan_frac(t, i2t)->Some_0;
    if 0 <= i2t && i2t < n && t[i2t] == '.' {
        lemma_scan_digits_chars(t, i2t + 1);
    }
    assert(scan_exp(t, i3t) == Some(n));
    if 0 <= i3t && i3t < n && (t[i3t] == 'e' || t[i3t] == 'E') {
        let jt: int = if i3t + 1 < n && (t[i3t + 1] == '+' || t[i3t + 1] == '-') {
            i3t + 2
        } else {
            i3t + 1
        };
        lemma_scan_digits_chars(t, jt);
        assert(forall|k: int| 0 <= k < n ==> num_token_char(#[trigger] t[k]));
    } else {
        assert(forall|k: int| 0 <= k < n ==> num_token_char(#[trigger] t[k]));
    }
}

/// A character that can stand in a number token.
pub open spec fn num_token_char(c: char) -> bool {
    is_digit(c) || c == '-' || c == '+' || c == '.' || c == 'e' || c == 'E'
}

/// The decimal token of an integer is a valid number token.
pub proof fn lemma_int_token_valid(n: int)
    ensures
        is_number_token(spec_int_token(n)),
{
    let t = spec_int_token(n);
    let m: nat = if n < 0 { (-n) as nat } else { n as nat };
    let d = spec_udec(m);
    lemma_udec_shape(m);
    let i1: int = if n < 0 { 1 } else { 0 };
    assert(t[i1] == d[0]);
    assert(forall|k: int| i1 <= k < t.len() ==> is_digit(#[trigger] t[k]));
    if m == 0 {
        assert(t[i1] == '0');
        assert(t.len() == i1 + 1);
        assert(scan_frac(t, i1 + 1) == Some(i1 + 1));
        assert(scan_exp(t, i1 + 1) == Some(i1 + 1));
    } else {
        assert(t[i1] != '0');
        lemma_scan_digits_run(t, i1, t.len() as int);
        assert(scan_frac(t, t.len() as int) == Some(t.len() as int));
        assert(scan_exp(t, t.len() as int) == Some(t.len() as int));
    }
}

} // verus!
