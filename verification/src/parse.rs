//! The parser: a strict recursive descent over RFC 8259 JSON text.
//!
//! A single left-to-right scan dispatches on the next significant character:
//! `{` opens an object, `[` an array, `"` a string, `t`/`f`/`n` a literal, a
//! digit or `-` a number. Whitespace (space, tab, CR, LF) is skippable between
//! tokens. Duplicate object keys are permitted and the last occurrence wins.
//! Any grammar violation fails with a `ParseError` carrying a character offset
//! and a kind: trailing commas, unquoted or single-quoted strings, comments,
//! raw control characters in strings, lone surrogates and trailing data are
//! all rejected, and no partial value is handed back.
//!
//! The functions named `spec_*` and the `parse_*` spec functions are the
//! mathematical statement of the grammar; each executable function returns
//! exactly what they say.

use vstd::prelude::*;

use crate::numtok::ex_scan_number;
use crate::numtok::scan_number;
use crate::text::char_of_u32;
use crate::text::chars_to_string;
use crate::text::str_to_chars;
use crate::value::obj_insert;
use crate::value::pairs_insert;
use crate::value::view_arr;
use crate::value::view_pairs;
use crate::value::Json;
use crate::value::JsonNumber;
use crate::value::JsonValue;
use crate::value::SpecNumber;
use crate::value::SpecValue;

verus! {

/// What a parse failure was.
#[derive(PartialEq, Eq, Structural, Clone, Copy, Debug)]
pub enum ParseErrorKind {
    /// The input ended where the grammar needs more.
    UnexpectedEnd,
    /// A character no grammar rule allows here.
    UnexpectedChar,
    /// A `\` followed by no valid escape, or a lone surrogate.
    InvalidEscape,
    /// A raw control character inside a string literal.
    ControlChar,
    /// Text after the root value.
    TrailingData,
}

/// Malformed input text: the kind of violation and the character offset at
/// which it was found.
#[derive(PartialEq, Eq, Structural, Clone, Copy, Debug)]
pub struct ParseError {
    pub kind: ParseErrorKind,
    pub offset: usize,
}

/// JSON whitespace: space, tab, carriage return, line feed.
pub open spec fn is_ws(c: char) -> bool {
    c == ' ' || c == '\n' || c == '\r' || c == '\t'
}

/// First position at or after `i` holding no whitespace.
pub open spec fn skip_ws(s: Seq<char>, i: int) -> int
    decreases s.len() - i,
{
    if 0 <= i && i < s.len() && is_ws(s[i]) {
        skip_ws(s, i + 1)
    } else {
        i
    }
}

/// A hexadecimal digit, either case.
pub open spec fn is_hex(c: char) -> bool {
    (48 <= c as u32 && c as u32 <= 57) || (97 <= c as u32 && c as u32 <= 102) || (65 <= c as u32
        && c as u32 <= 70)
}

/// The value of a hexadecimal digit.
pub open spec fn hex_val(c: char) -> int {
    if 48 <= c as u32 && c as u32 <= 57 {
        c as u32 - 48
    } else if 97 <= c as u32 && c as u32 <= 102 {
        c as u32 - 87
    } else {
        c as u32 - 55
    }
}

/// The value of four hexadecimal digits at `i` (which must be in bounds).
pub open spec fn hex4(s: Seq<char>, i: int) -> int {
    hex_val(s[i]) * 4096 + hex_val(s[i + 1]) * 256 + hex_val(s[i + 2]) * 16 + hex_val(s[i + 3])
}

/// Four hexadecimal digits stand at `i`.
pub open spec fn hex4_at(s: Seq<char>, i: int) -> bool {
    i + 4 <= s.len() && is_hex(s[i]) && is_hex(s[i + 1]) && is_hex(s[i + 2]) && is_hex(s[i + 3])
}

/// The rest of a string literal, after its opening quote: the decoded payload
/// accumulated onto `acc`, and the position after the closing quote. `None`
/// on an unterminated literal, an invalid escape, a lone surrogate or a raw
/// control character.
pub open spec fn parse_string_body(s: Seq<char>, i: int, acc: Seq<char>) -> Option<
    (Seq<char>, int),
>
    decreases s.len() - i,
{
    if !(0 <= i && i < s.len()) {
        None
    } else {
        let c = s[i];
        if c == '"' {
            Some((acc, i + 1))
        } else if c == '\\' {
            if i + 1 >= s.len() {
                None
            } else {
                let e = s[i + 1];
                if e == '"' {
                    parse_string_body(s, i + 2, acc.push('"'))
                } else if e == '\\' {
                    parse_string_body(s, i + 2, acc.push('\\'))
                } else if e == '/' {
                    parse_string_body(s, i + 2, acc.push('/'))
                } else if e == 'b' {
                    parse_string_body(s, i + 2, acc.push('\u{8}'))
                } else if e == 'f' {
                    parse_string_body(s, i + 2, acc.push('\u{c}'))
                } else if e == 'n' {
                    parse_string_body(s, i + 2, acc.push('\n'))
                } else if e == 'r' {
                    parse_string_body(s, i + 2, acc.push('\r'))
                } else if e == 't' {
                    parse_string_body(s, i + 2, acc.push('\t'))
                } else if e == 'u' {
                    if !hex4_at(s, i + 2) {
                        None
                    } else {
                        let u = hex4(s, i + 2);
                        if 0xD800 <= u && u < 0xDC00 {
                            if i + 8 <= s.len() && s[i + 6] == '\\' && s[i + 7] == 'u' && hex4_at(
                                s,
                                i + 8,
                            ) {
                                let u2 = hex4(s, i + 8);
                                if 0xDC00 <= u2 && u2 < 0xE000 {
                                    let cp = 0x10000 + (u - 0xD800) * 0x400 + (u2 - 0xDC00);
                                    parse_string_body(s, i + 12, acc.push((cp as u32) as char))
                                } else {
                                    None
                                }
                            } else {
                                None
                            }
                        } else if 0xDC00 <= u && u < 0xE000 {
                            None
                        } else {
                            parse_string_body(s, i + 6, acc.push((u as u32) as char))
                        }
                    }
                } else {
                    None
                }
            }
        } else if (c as u32) < 32 {
            None
        } else {
            parse_string_body(s, i + 1, acc.push(c))
        }
    }
}

/// A value starting at the first significant character at or after `i`: the
/// value and the position just after it. `None` on any grammar violation.
pub open spec fn parse_value(s: Seq<char>, i: int) -> Option<(SpecValue, int)>
    decreases s.len() - i, 0int,
{
    let j = skip_ws(s, i);
    if j < i || j >= s.len() {
        None
    } else {
        let c = s[j];
        if c == '{' {
            parse_obj_body(s, j + 1, Seq::empty())
        } else if c == '[' {
            parse_arr_body(s, j + 1, Seq::empty())
        } else if c == '"' {
            match parse_string_body(s, j + 1, Seq::empty()) {
                Option::None => Option::<(SpecValue, int)>::None,
                Option::Some((p, k)) => Some((SpecValue::Str(p), k)),
            }
        } else if c == 't' {
            if j + 4 <= s.len() && s[j + 1] == 'r' && s[j + 2] == 'u' && s[j + 3] == 'e' {
                Some((SpecValue::Bool(true), j + 4))
            } else {
                None
            }
        } else if c == 'f' {
            if j + 5 <= s.len() && s[j + 1] == 'a' && s[j + 2] == 'l' && s[j + 3] == 's' && s[j + 4]
                == 'e' {
                Some((SpecValue::Bool(false), j + 5))
            } else {
                None
            }
        } else if c == 'n' {
            if j + 4 <= s.len() && s[j + 1] == 'u' && s[j + 2] == 'l' && s[j + 3] == 'l' {
                Some((SpecValue::Null, j + 4))
            } else {
                None
            }
        } else if c == '-' || (48 <= c as u32 && c as u32 <= 57) {
            match scan_number(s, j) {
                Option::None => Option::<(SpecValue, int)>::None,
                Option::Some(k) => Some(
                    (SpecValue::Num(SpecNumber::Finite(s.subrange(j, k))), k),
                ),
            }
        } else {
            None
        }
    }
}

/// The rest of an array, after `[` or a separating comma: elements appended
/// to `acc` until `]`, and the position after `]`.
pub open spec fn parse_arr_body(s: Seq<char>, i: int, acc: Seq<SpecValue>) -> Option<
    (SpecValue, int),
>
    decreases s.len() - i, 1int,
{
    let j = skip_ws(s, i);
    if j < i || j > s.len() {
        None
    } else if acc.len() == 0 && j < s.len() && s[j] == ']' {
        Some((SpecValue::Arr(acc), j + 1))
    } else {
        match parse_value(s, j) {
            Option::None => Option::<(SpecValue, int)>::None,
            Option::Some((v, k)) => {
                if k <= j || k > s.len() {
                    None
                } else {
                    let m = skip_ws(s, k);
                    if m < k {
                        None
                    } else if m < s.len() && s[m] == ',' {
                        parse_arr_body(s, m + 1, acc.push(v))
                    } else if m < s.len() && s[m] == ']' {
                        Some((SpecValue::Arr(acc.push(v)), m + 1))
                    } else {
                        None
                    }
                }
            },
        }
    }
}

/// The rest of an object, after `{` or a separating comma: `"key": value`
/// members inserted into `acc` until `}`, later occurrences of a key
/// overwriting earlier ones, and the position after `}`.
pub open spec fn parse_obj_body(s: Seq<char>, i: int, acc: Seq<(Seq<char>, SpecValue)>) -> Option<
    (SpecValue, int),
>
    decreases s.len() - i, 1int,
{
    let j = skip_ws(s, i);
    if j < i || j > s.len() {
        None
    } else if acc.len() == 0 && j < s.len() && s[j] == '}' {
        Some((SpecValue::Obj(acc), j + 1))
    } else if !(j < s.len() && s[j] == '"') {
        None
    } else {
        match parse_string_body(s, j + 1, Seq::empty()) {
            Option::None => Option::<(SpecValue, int)>::None,
            Option::Some((key, k)) => {
                if k <= j + 1 || k > s.len() {
                    None
                } else {
                    let m = skip_ws(s, k);
                    if m < k || !(m < s.len() && s[m] == ':') {
                        None
                    } else {
                        match parse_value(s, m + 1) {
                            Option::None => Option::<(SpecValue, int)>::None,
                            Option::Some((v, q)) => {
                                if q <= m + 1 || q > s.len() {
                                    None
                                } else {
                                    let w = skip_ws(s, q);
                                    if w < q {
                                        None
                                    } else if w < s.len() && s[w] == ',' {
                                        parse_obj_body(s, w + 1, obj_insert(acc, key, v))
                                    } else if w < s.len() && s[w] == '}' {
                                        Some((SpecValue::Obj(obj_insert(acc, key, v)), w + 1))
                                    } else {
                                        None
                                    }
                                }
                            },
                        }
                    }
                }
            },
        }
    }
}

/// The whole input as one value: a root value with nothing but whitespace
/// around it. `None` on any violation, trailing data included.
pub open spec fn spec_parse(s: Seq<char>) -> Option<SpecValue> {
    match parse_value(s, 0) {
        Option::None => Option::<SpecValue>::None,
        Option::Some((v, k)) => {
            if skip_ws(s, k) == s.len() {
                Some(v)
            } else {
                None
            }
        },
    }
}

/// Skips whitespace, as `skip_ws` does.
fn ex_skip_ws(s: &Vec<char>, i: usize) -> (r: usize)
    requires
        i <= s@.len(),
    ensures
        r as int == skip_ws(s@, i as int),
        i <= r <= s@.len(),
    decreases s@.len() - i,
{
    if i < s.len() {
        let c = s[i];
        if c == ' ' || c == '\n' || c == '\r' || c == '\t' {
            return ex_skip_ws(s, i + 1);
        }
    }
    i
}

/// The value of a hexadecimal digit, or `None`.
fn ex_hex_val(c: char) -> (r: Option<u32>)
    ensures
        match r {
            Some(v) => is_hex(c) && v as int == hex_val(c) && v < 16,
            None => !is_hex(c),
        },
{
    let u = c as u32;
    if 48 <= u && u <= 57 {
        Some(u - 48)
    } else if 97 <= u && u <= 102 {
        Some(u - 87)
    } else if 65 <= u && u <= 70 {
        Some(u - 55)
    } else {
        None
    }
}

/// Four hexadecimal digits at `i`, as a value, or `None`.
fn ex_hex4(s: &Vec<char>, i: usize) -> (r: Option<u32>)
    requires
        i <= s@.len(),
    ensures
        match r {
            Some(v) => hex4_at(s@, i as int) && v as int == hex4(s@, i as int) && v < 0x10000,
            None => !hex4_at(s@, i as int),
        },
{
    if s.len() - i < 4 {
        return None;
    }
    let h0 = match ex_hex_val(s[i]) {
        Some(v) => v,
        None => {
            return None;
        },
    };
    let h1 = match ex_hex_val(s[i + 1]) {
        Some(v) => v,
        None => {
            return None;
        },
    };
    let h2 = match ex_hex_val(s[i + 2]) {
        Some(v) => v,
        None => {
            return None;
        },
    };
    let h3 = match ex_hex_val(s[i + 3]) {
        Some(v) => v,
        None => {
            return None;
        },
    };
    Some(h0 * 4096 + h1 * 256 + h2 * 16 + h3)
}

/// Decodes the rest of a string literal onto `acc`, as `parse_string_body`
/// does, returning the position after the closing quote.
fn ex_parse_string_body(s: &Vec<char>, i: usize, acc: &mut Vec<char>) -> (r: Result<
    usize,
    ParseError,
>)
    requires
        i <= s@.len(),
    ensures
        match r {
            Ok(k) => parse_string_body(s@, i as int, old(acc)@) == Some((final(acc)@, k as int))
                && i < k <= s@.len(),
            Err(_) => parse_string_body(s@, i as int, old(acc)@) is None,
        },
    decreases s@.len() - i,
{
    if i >= s.len() {
        return Err(ParseError { kind: ParseErrorKind::UnexpectedEnd, offset: i });
    }
    let c = s[i];
    if c == '"' {
        return Ok(i + 1);
    }
    if c == '\\' {
        if i + 1 >= s.len() {
            return Err(ParseError { kind: ParseErrorKind::UnexpectedEnd, offset: i });
        }
        let e = s[i + 1];
        if e == '"' || e == '\\' || e == '/' || e == 'b' || e == 'f' || e == 'n' || e == 'r' || e
            == 't' {
            let d: char = if e == '"' {
                '"'
            } else if e == '\\' {
                '\\'
            } else if e == '/' {
                '/'
            } else if e == 'b' {
                '\u{8}'
            } else if e == 'f' {
                '\u{c}'
            } else if e == 'n' {
                '\n'
            } else if e == 'r' {
                '\r'
            } else {
                '\t'
            };
            acc.push(d);
            return ex_parse_string_body(s, i + 2, acc);
        }
        if e == 'u' {
            let u = match ex_hex4(s, i + 2) {
                Some(v) => v,
                None => {
                    return Err(ParseError { kind: ParseErrorKind::InvalidEscape, offset: i });
                },
            };
            if 0xD800 <= u && u < 0xDC00 {
                if s.len() - i >= 8 && s[i + 6] == '\\' && s[i + 7] == 'u' {
                    let u2 = match ex_hex4(s, i + 8) {
                        Some(v) => v,
                        None => {
                            return Err(
                                ParseError { kind: ParseErrorKind::InvalidEscape, offset: i },
                            );
                        },
                    };
                    if 0xDC00 <= u2 && u2 < 0xE000 {
                        let cp: u32 = 0x10000 + (u - 0xD800) * 0x400 + (u2 - 0xDC00);
                        let d = char_of_u32(cp);
                        proof {
                            vstd::utf8::char_u32_cast(d, cp);
                        }
                        acc.push(d);
                        return ex_parse_string_body(s, i + 12, acc);
                    } else {
                        return Err(ParseError { kind: ParseErrorKind::InvalidEscape, offset: i });
                    }
                } else {
                    return Err(ParseError { kind: ParseErrorKind::InvalidEscape, offset: i });
                }
            } else if 0xDC00 <= u && u < 0xE000 {
                return Err(ParseError { kind: ParseErrorKind::InvalidEscape, offset: i });
            } else {
                let d = char_of_u32(u);
                proof {
                    vstd::utf8::char_u32_cast(d, u);
                }
                acc.push(d);
                return ex_parse_string_body(s, i + 6, acc);
            }
        }
        return Err(ParseError { kind: ParseErrorKind::InvalidEscape, offset: i });
    }
    if (c as u32) < 32 {
        return Err(ParseError { kind: ParseErrorKind::ControlChar, offset: i });
    }
    acc.push(c);
    ex_parse_string_body(s, i + 1, acc)
}

/// Parses a value at `i`, as `parse_value` does.
fn ex_parse_value(s: &Vec<char>, i: usize) -> (r: Result<(JsonValue, usize), ParseError>)
    requires
        i <= s@.len(),
    ensures
        match r {
            Ok((v, k)) => parse_value(s@, i as int) == Some((v@, k as int)) && i < k <= s@.len(),
            Err(_) => parse_value(s@, i as int) is None,
        },
    decreases s@.len() - i, 0int,
{
    let j = ex_skip_ws(s, i);
    if j >= s.len() {
        return Err(ParseError { kind: ParseErrorKind::UnexpectedEnd, offset: j });
    }
    let c = s[j];
    if c == '{' {
        let pairs: Vec<(String, JsonValue)> = Vec::new();
        ex_parse_obj_body(s, j + 1, pairs)
    } else if c == '[' {
        let elems: Vec<JsonValue> = Vec::new();
        ex_parse_arr_body(s, j + 1, elems)
    } else if c == '"' {
        let mut payload: Vec<char> = Vec::new();
        match ex_parse_string_body(s, j + 1, &mut payload) {
            Ok(k) => {
                let t = chars_to_string(&payload);
                Ok((JsonValue::Str(t), k))
            },
            Err(e) => Err(e),
        }
    } else if c == 't' {
        if s.len() - j >= 4 && s[j + 1] == 'r' && s[j + 2] == 'u' && s[j + 3] == 'e' {
            Ok((JsonValue::Bool(true), j + 4))
        } else {
            Err(ParseError { kind: ParseErrorKind::UnexpectedChar, offset: j })
        }
    } else if c == 'f' {
        if s.len() - j >= 5 && s[j + 1] == 'a' && s[j + 2] == 'l' && s[j + 3] == 's' && s[j + 4]
            == 'e' {
            Ok((JsonValue::Bool(false), j + 5))
        } else {
            Err(ParseError { kind: ParseErrorKind::UnexpectedChar, offset: j })
        }
    } else if c == 'n' {
        if s.len() - j >= 4 && s[j + 1] == 'u' && s[j + 2] == 'l' && s[j + 3] == 'l' {
            Ok((JsonValue::Null, j + 4))
        } else {
            Err(ParseError { kind: ParseErrorKind::UnexpectedChar, offset: j })
        }
    } else if c == '-' || (48 <= c as u32 && c as u32 <= 57) {
        match ex_scan_number(s, j) {
            Some(k) => {
                let mut tok: Vec<char> = Vec::new();
                let mut q: usize = j;
                while q < k
                    invariant
                        j <= q <= k <= s@.len(),
                        tok@ == s@.subrange(j as int, q as int),
                    decreases k - q,
                {
                    tok.push(s[q]);
                    proof {
                        assert(tok@ =~= s@.subrange(j as int, q as int + 1));
                    }
                    q = q + 1;
                }
                let t = chars_to_string(&tok);
                Ok((JsonValue::Num(JsonNumber::Finite(t)), k))
            },
            None => Err(ParseError { kind: ParseErrorKind::UnexpectedChar, offset: j }),
        }
    } else {
        Err(ParseError { kind: ParseErrorKind::UnexpectedChar, offset: j })
    }
}

/// Parses the rest of an array onto `acc`, as `parse_arr_body` does.
fn ex_parse_arr_body(s: &Vec<char>, i: usize, acc: Vec<JsonValue>) -> (r: Result<
    (JsonValue, usize),
    ParseError,
>)
    requires
        i <= s@.len(),
    ensures
        match r {
            Ok((v, k)) => parse_arr_body(s@, i as int, view_arr(acc@)) == Some((v@, k as int)) && i
                < k <= s@.len(),
            Err(_) => parse_arr_body(s@, i as int, view_arr(acc@)) is None,
        },
    decreases s@.len() - i, 1int,
{
    proof {
        crate::value::lemma_view_arr_len(acc@);
    }
    let j = ex_skip_ws(s, i);
    if acc.len() == 0 && j < s.len() && s[j] == ']' {
        return Ok((JsonValue::Arr(acc), j + 1));
    }
    match ex_parse_value(s, j) {
        Err(e) => Err(e),
        Ok((v, k)) => {
            let m = ex_skip_ws(s, k);
            if m < s.len() && s[m] == ',' {
                let mut acc2 = acc;
                proof {
                    crate::value::lemma_view_arr_push(acc2@, v);
                }
                acc2.push(v);
                ex_parse_arr_body(s, m + 1, acc2)
            } else if m < s.len() && s[m] == ']' {
                let mut acc2 = acc;
                proof {
                    crate::value::lemma_view_arr_push(acc2@, v);
                }
                acc2.push(v);
                Ok((JsonValue::Arr(acc2), m + 1))
            } else if m < s.len() {
                Err(ParseError { kind: ParseErrorKind::UnexpectedChar, offset: m })
            } else {
                Err(ParseError { kind: ParseErrorKind::UnexpectedEnd, offset: m })
            }
        },
    }
}

/// Parses the rest of an object onto `acc`, as `parse_obj_body` does.
fn ex_parse_obj_body(s: &Vec<char>, i: usize, acc: Vec<(String, JsonValue)>) -> (r: Result<
    (JsonValue, usize),
    ParseError,
>)
    requires
        i <= s@.len(),
    ensures
        match r {
            Ok((v, k)) => parse_obj_body(s@, i as int, view_pairs(acc@)) == Some((v@, k as int))
                && i < k <= s@.len(),
            Err(_) => parse_obj_body(s@, i as int, view_pairs(acc@)) is None,
        },
    decreases s@.len() - i, 1int,
{
    proof {
        crate::value::lemma_view_pairs_len(acc@);
    }
    let j = ex_skip_ws(s, i);
    if acc.len() == 0 && j < s.len() && s[j] == '}' {
        return Ok((JsonValue::Obj(acc), j + 1));
    }
    if !(j < s.len() && s[j] == '"') {
        if j < s.len() {
            return Err(ParseError { kind: ParseErrorKind::UnexpectedChar, offset: j });
        } else {
            return Err(ParseError { kind: ParseErrorKind::UnexpectedEnd, offset: j });
        }
    }
    let mut keybuf: Vec<char> = Vec::new();
    let k = match ex_parse_string_body(s, j + 1, &mut keybuf) {
        Ok(k) => k,
        Err(e) => {
            return Err(e);
        },
    };
    let key = chars_to_string(&keybuf);
    let m = ex_skip_ws(s, k);
    if !(m < s.len() && s[m] == ':') {
        if m < s.len() {
            return Err(ParseError { kind: ParseErrorKind::UnexpectedChar, offset: m });
        } else {
            return Err(ParseError { kind: ParseErrorKind::UnexpectedEnd, offset: m });
        }
    }
    match ex_parse_value(s, m + 1) {
        Err(e) => Err(e),
        Ok((v, q)) => {
            let w = ex_skip_ws(s, q);
            if w < s.len() && s[w] == ',' {
                let mut acc2 = acc;
                pairs_insert(&mut acc2, key.as_str(), v);
                ex_parse_obj_body(s, w + 1, acc2)
            } else if w < s.len() && s[w] == '}' {
                let mut acc2 = acc;
                pairs_insert(&mut acc2, key.as_str(), v);
                Ok((JsonValue::Obj(acc2), w + 1))
            } else if w < s.len() {
                Err(ParseError { kind: ParseErrorKind::UnexpectedChar, offset: w })
            } else {
                Err(ParseError { kind: ParseErrorKind::UnexpectedEnd, offset: w })
            }
        },
    }
}

/// Parses one JSON document: the root value, with nothing but whitespace
/// around it. Succeeds exactly when `spec_parse` has a value for the text.
pub fn parse_json(json_str: &str) -> (r: Result<Json, ParseError>)
    ensures
        match r {
            Ok(d) => spec_parse(json_str@) == Some(d@) && crate::value::wf(d@)
                && crate::value::all_finite(d@),
            Err(_) => spec_parse(json_str@) is None,
        },
{
    let chars = str_to_chars(json_str);
    match ex_parse_value(&chars, 0) {
        Err(e) => Err(e),
        Ok((v, k)) => {
            let e2 = ex_skip_ws(&chars, k);
            if e2 == chars.len() {
                proof {
                    crate::laws::lemma_parse_value_wf(chars@, 0);
                }
                Ok(Json { value: v })
            } else {
                Err(ParseError { kind: ParseErrorKind::TrailingData, offset: e2 })
            }
        },
    }
}

} // verus!
