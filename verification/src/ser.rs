//! The serializer: renders a value as JSON text, either compact (no
//! insignificant whitespace) or pretty (one line per element or member, each
//! nesting level indented by one more copy of a configurable unit, a single
//! space after `:`; empty containers render as `[]` and `{}`).
//!
//! String payloads and object keys are escaped on output: `"`, `\` and the
//! control characters below `0x20`, the common ones by their short escapes and
//! the rest as `\u00XX`; every other character, non-ASCII included, passes
//! through literally. Number tokens are emitted verbatim. A tree holding a
//! not-a-number or infinite value has no JSON text and is refused.

use vstd::prelude::*;

use crate::text::push_chars;
use crate::text::push_str_chars;
use crate::value::all_finite;
use crate::value::arr_all_finite;
use crate::value::obj_all_finite;
use crate::value::view_arr;
use crate::value::view_pairs;
use crate::value::Json;
use crate::value::JsonNumber;
use crate::value::JsonValue;
use crate::value::SpecNumber;
use crate::value::SpecValue;

verus! {

/// Serialization against a tree holding a number with no JSON literal.
#[derive(PartialEq, Eq, Structural, Clone, Copy, Debug)]
pub enum SerializeError {
    NonFiniteNumber,
}

/// The lowercase hexadecimal digit for `d`.
pub open spec fn hex_char(d: int) -> char {
    if d < 10 {
        ((48 + d) as u8) as char
    } else {
        ((87 + d) as u8) as char
    }
}

/// The output for one string character: itself, or its escape.
pub open spec fn esc_char(c: char) -> Seq<char> {
    if c == '"' {
        seq!['\\', '"']
    } else if c == '\\' {
        seq!['\\', '\\']
    } else if c == '\u{8}' {
        seq!['\\', 'b']
    } else if c == '\u{c}' {
        seq!['\\', 'f']
    } else if c == '\n' {
        seq!['\\', 'n']
    } else if c == '\r' {
        seq!['\\', 'r']
    } else if c == '\t' {
        seq!['\\', 't']
    } else if (c as u32) < 32 {
        seq!['\\', 'u', '0', '0', hex_char(c as u32 as int / 16), hex_char(c as u32 as int % 16)]
    } else {
        seq![c]
    }
}

/// The escaped form of a string payload.
pub open spec fn esc(s: Seq<char>) -> Seq<char>
    decreases s.len(),
{
    if s.len() == 0 {
        Seq::empty()
    } else {
        esc_char(s[0]) + esc(s.drop_first())
    }
}

/// A string literal: quotes around the escaped payload.
pub open spec fn ser_str(s: Seq<char>) -> Seq<char> {
    seq!['"'] + esc(s) + seq!['"']
}

/// A number literal: its token, verbatim. Only finite numbers are rendered;
/// the serializer fails before this applies to anything else.
pub open spec fn ser_num(n: SpecNumber) -> Seq<char> {
    match n {
        SpecNumber::Finite(t) => t,
        _ => Seq::empty(),
    }
}

/// The compact text of a value: no whitespace outside string literals.
pub open spec fn ser_compact(v: SpecValue) -> Seq<char>
    decreases v, 0int,
{
    match v {
        SpecValue::Null => seq!['n', 'u', 'l', 'l'],
        SpecValue::Bool(b) => if b {
            seq!['t', 'r', 'u', 'e']
        } else {
            seq!['f', 'a', 'l', 's', 'e']
        },
        SpecValue::Num(n) => ser_num(n),
        SpecValue::Str(s) => ser_str(s),
        SpecValue::Arr(a) => seq!['['] + ser_arr_items(a, 0) + seq![']'],
        SpecValue::Obj(p) => seq!['{'] + ser_obj_items(p, 0) + seq!['}'],
    }
}

/// The compact text of an array's elements from index `k` on, separated by
/// commas.
pub open spec fn ser_arr_items(a: Seq<SpecValue>, k: int) -> Seq<char>
    decreases a, a.len() - k,
{
    if !(0 <= k < a.len()) {
        Seq::empty()
    } else if k == a.len() - 1 {
        ser_compact(a[k])
    } else {
        ser_compact(a[k]) + seq![','] + ser_arr_items(a, k + 1)
    }
}

/// The compact text of an object's members from index `k` on: quoted key,
/// colon, value, separated by commas.
pub open spec fn ser_obj_items(p: Seq<(Seq<char>, SpecValue)>, k: int) -> Seq<char>
    decreases p, p.len() - k,
{
    if !(0 <= k < p.len()) {
        Seq::empty()
    } else if k == p.len() - 1 {
        ser_str(p[k].0) + seq![':'] + ser_compact(p[k].1)
    } else {
        ser_str(p[k].0) + seq![':'] + ser_compact(p[k].1) + seq![','] + ser_obj_items(p, k + 1)
    }
}

/// The indent unit repeated `depth` times.
pub open spec fn indent(unit: Seq<char>, depth: nat) -> Seq<char>
    decreases depth,
{
    if depth == 0 {
        Seq::empty()
    } else {
        indent(unit, (depth - 1) as nat) + unit
    }
}

/// The pretty text of a value at nesting level `depth`: leaves as in compact
/// form; non-empty containers with one element or member per line, each line
/// indented one level deeper, and the closing bracket indented at `depth`;
/// empty containers as `[]` and `{}`.
pub open spec fn ser_pretty(v: SpecValue, unit: Seq<char>, depth: nat) -> Seq<char>
    decreases v, 0int,
{
    match v {
        SpecValue::Arr(a) => if a.len() == 0 {
            seq!['[', ']']
        } else {
            seq!['[', '\n'] + pretty_arr_items(a, unit, (depth + 1) as nat, 0)
                + indent(unit, depth) + seq![']']
        },
        SpecValue::Obj(p) => if p.len() == 0 {
            seq!['{', '}']
        } else {
            seq!['{', '\n'] + pretty_obj_items(p, unit, (depth + 1) as nat, 0)
                + indent(unit, depth) + seq!['}']
        },
        _ => ser_compact(v),
    }
}

/// The pretty lines for an array's elements from index `k` on.
pub open spec fn pretty_arr_items(a: Seq<SpecValue>, unit: Seq<char>, depth: nat, k: int) -> Seq<
    char,
>
    decreases a, a.len() - k,
{
    if !(0 <= k < a.len()) {
        Seq::empty()
    } else {
        let item = indent(unit, depth) + ser_pretty(a[k], unit, depth);
        if k == a.len() - 1 {
            item + seq!['\n']
        } else {
            item + seq![',', '\n'] + pretty_arr_items(a, unit, depth, k + 1)
        }
    }
}

/// The pretty lines for an object's members from index `k` on: quoted key,
/// colon, one space, value.
pub open spec fn pretty_obj_items(
    p: Seq<(Seq<char>, SpecValue)>,
    unit: Seq<char>,
    depth: nat,
    k: int,
) -> Seq<char>
    decreases p, p.len() - k,
{
    if !(0 <= k < p.len()) {
        Seq::empty()
    } else {
        let item = indent(unit, depth) + ser_str(p[k].0) + seq![':', ' '] + ser_pretty(
            p[k].1,
            unit,
            depth,
        );
        if k == p.len() - 1 {
            item + seq!['\n']
        } else {
            item + seq![',', '\n'] + pretty_obj_items(p, unit, depth, k + 1)
        }
    }
}

/// Escaping distributes over concatenation.
pub proof fn lemma_esc_append(a: Seq<char>, b: Seq<char>)
    ensures
        esc(a + b) == esc(a) + esc(b),
    decreases a.len(),
{
    if a.len() == 0 {
        assert(a + b =~= b);
        assert(esc(a) + esc(b) =~= esc(b));
    } else {
        assert((a + b).drop_first() =~= a.drop_first() + b);
        lemma_esc_append(a.drop_first(), b);
        assert(esc(a + b) =~= esc(a) + esc(b));
    }
}

/// Appends the escape of one character.
fn write_esc_char(c: char, out: &mut Vec<char>)
    ensures
        final(out)@ == old(out)@ + esc_char(c),
{
    let u = c as u32;
    if c == '"' {
        out.push('\\');
        out.push('"');
    } else if c == '\\' {
        out.push('\\');
        out.push('\\');
    } else if c == '\u{8}' {
        out.push('\\');
        out.push('b');
    } else if c == '\u{c}' {
        out.push('\\');
        out.push('f');
    } else if c == '\n' {
        out.push('\\');
        out.push('n');
    } else if c == '\r' {
        out.push('\\');
        out.push('r');
    } else if c == '\t' {
        out.push('\\');
        out.push('t');
    } else if u < 32 {
        out.push('\\');
        out.push('u');
        out.push('0');
        out.push('0');
        let hi = (u / 16) as u8;
        let lo = (u % 16) as u8;
        out.push(if hi < 10 { (48 + hi) as char } else { (87 + hi) as char });
        out.push(if lo < 10 { (48 + lo) as char } else { (87 + lo) as char });
    } else {
        out.push(c);
    }
    proof {
        assert(out@ =~= old(out)@ + esc_char(c));
    }
}

/// Appends the escaped payload of `s`.
#[verifier::loop_isolation(false)]
fn write_escaped(s: &str, out: &mut Vec<char>)
    ensures
        final(out)@ == old(out)@ + esc(s@),
{
    let n = s.unicode_len();
    let mut i: usize = 0;
    while i < n
        invariant
            i <= n,
            n == s@.len(),
            out@ == old(out)@ + esc(s@.subrange(0, i as int)),
        decreases n - i,
    {
        let c = s.get_char(i);
        write_esc_char(c, out);
        proof {
            assert(s@.subrange(0, i as int + 1) =~= s@.subrange(0, i as int) + seq![s@[i as int]]);
            lemma_esc_append(s@.subrange(0, i as int), seq![s@[i as int]]);
            assert(seq![s@[i as int]].drop_first() =~= Seq::<char>::empty());
            assert(esc(seq![s@[i as int]]) == esc_char(s@[i as int]) + esc(
                Seq::<char>::empty(),
            ));
            assert(esc_char(s@[i as int]) + Seq::<char>::empty() =~= esc_char(s@[i as int]));
            assert(out@ =~= old(out)@ + esc(s@.subrange(0, i as int + 1)));
        }
        i = i + 1;
    }
    proof {
        assert(s@.subrange(0, n as int) =~= s@);
    }
}

/// Appends a string literal: quote, escaped payload, quote.
fn write_str_lit(s: &str, out: &mut Vec<char>)
    ensures
        final(out)@ == old(out)@ + ser_str(s@),
{
    out.push('"');
    write_escaped(s, out);
    out.push('"');
    proof {
        assert(out@ =~= old(out)@ + ser_str(s@));
    }
}

/// Appends the compact text of `v`; fails on a non-finite number, leaving the
/// buffer in an unspecified partial state that the caller discards.
pub fn write_compact(v: &JsonValue, out: &mut Vec<char>) -> (r: Result<(), SerializeError>)
    ensures
        r is Ok <==> all_finite(v@),
        r is Ok ==> final(out)@ == old(out)@ + ser_compact(v@),
    decreases v, 0int,
{
    match v {
        JsonValue::Null => {
            out.push('n');
            out.push('u');
            out.push('l');
            out.push('l');
            proof {
                assert(out@ =~= old(out)@ + ser_compact(v@));
            }
            Ok(())
        },
        JsonValue::Bool(b) => {
            if *b {
                out.push('t');
                out.push('r');
                out.push('u');
                out.push('e');
            } else {
                out.push('f');
                out.push('a');
                out.push('l');
                out.push('s');
                out.push('e');
            }
            proof {
                assert(out@ =~= old(out)@ + ser_compact(v@));
            }
            Ok(())
        },
        JsonValue::Num(n) => match n {
            JsonNumber::Finite(t) => {
                push_str_chars(t.as_str(), out);
                Ok(())
            },
            _ => Err(SerializeError::NonFiniteNumber),
        },
        JsonValue::Str(s) => {
            write_str_lit(s.as_str(), out);
            Ok(())
        },
        JsonValue::Arr(a) => {
            out.push('[');
            let ghost va = view_arr(a@);
            proof {
                crate::value::lemma_view_arr_len(a@);
            }
            if a.len() > 0 {
                match write_arr_items(a, 0, out) {
                    Ok(()) => {},
                    Err(e) => {
                        proof {
                            assert(v@ == SpecValue::Arr(va));
                            assert(!all_finite(v@));
                        }
                        return Err(e);
                    },
                }
            }
            out.push(']');
            proof {
                if a@.len() == 0 {
                    assert(ser_arr_items(va, 0) =~= Seq::<char>::empty());
                }
                assert(out@ =~= old(out)@ + ser_compact(v@));
            }
            Ok(())
        },
        JsonValue::Obj(p) => {
            out.push('{');
            let ghost vp = view_pairs(p@);
            proof {
                crate::value::lemma_view_pairs_len(p@);
            }
            if p.len() > 0 {
                match write_obj_items(p, 0, out) {
                    Ok(()) => {},
                    Err(e) => {
                        proof {
                            assert(v@ == SpecValue::Obj(vp));
                            assert(!all_finite(v@));
                        }
                        return Err(e);
                    },
                }
            }
            out.push('}');
            proof {
                if p@.len() == 0 {
                    assert(ser_obj_items(vp, 0) =~= Seq::<char>::empty());
                }
                assert(out@ =~= old(out)@ + ser_compact(v@));
            }
            Ok(())
        },
    }
}

/// Appends the compact, comma-separated elements of `a` from index `k` on.
fn write_arr_items(a: &Vec<JsonValue>, k: usize, out: &mut Vec<char>) -> (r: Result<
    (),
    SerializeError,
>)
    requires
        k < a@.len(),
    ensures
        r is Ok <==> arr_all_finite(view_arr(a@), k as int),
        r is Ok ==> final(out)@ == old(out)@ + ser_arr_items(view_arr(a@), k as int),
    decreases a, a@.len() - k,
{
    let ghost va = view_arr(a@);
    proof {
        crate::value::lemma_view_arr_len(a@);
        crate::value::lemma_view_arr_index(a@, k as int);
    }
    let n = a.len();
    match write_compact(&a[k], out) {
        Ok(()) => {},
        Err(e) => {
            proof {
                assert(!arr_all_finite(view_arr(a@), k as int));
            }
            return Err(e);
        },
    }
    if k + 1 < n {
        out.push(',');
        match write_arr_items(a, k + 1, out) {
            Ok(()) => {},
            Err(e) => {
                proof {
                    assert(!arr_all_finite(va, k as int));
                }
                return Err(e);
            },
        }
        proof {
            assert(arr_all_finite(va, k as int));
            assert(out@ =~= old(out)@ + ser_arr_items(va, k as int));
        }
        Ok(())
    } else {
        proof {
            assert(arr_all_finite(va, k as int + 1));
            assert(arr_all_finite(va, k as int));
            assert(out@ =~= old(out)@ + ser_arr_items(va, k as int));
        }
        Ok(())
    }
}

/// Appends the compact, comma-separated members of `p` from index `k` on.
fn write_obj_items(p: &Vec<(String, JsonValue)>, k: usize, out: &mut Vec<char>) -> (r: Result<
    (),
    SerializeError,
>)
    requires
        k < p@.len(),
    ensures
        r is Ok <==> obj_all_finite(view_pairs(p@), k as int),
        r is Ok ==> final(out)@ == old(out)@ + ser_obj_items(view_pairs(p@), k as int),
    decreases p, p@.len() - k,
{
    let ghost vp = view_pairs(p@);
    proof {
        crate::value::lemma_view_pairs_len(p@);
        crate::value::lemma_view_pairs_index(p@, k as int);
    }
    let n = p.len();
    write_str_lit(p[k].0.as_str(), out);
    out.push(':');
    match write_compact(&p[k].1, out) {
        Ok(()) => {},
        Err(e) => {
            proof {
                assert(!obj_all_finite(view_pairs(p@), k as int));
            }
            return Err(e);
        },
    }
    if k + 1 < n {
        out.push(',');
        match write_obj_items(p, k + 1, out) {
            Ok(()) => {},
            Err(e) => {
                proof {
                    assert(!obj_all_finite(vp, k as int));
                }
                return Err(e);
            },
        }
        proof {
            assert(obj_all_finite(vp, k as int));
            assert(out@ =~= old(out)@ + ser_obj_items(vp, k as int));
        }
        Ok(())
    } else {
        proof {
            assert(obj_all_finite(vp, k as int + 1));
            assert(obj_all_finite(vp, k as int));
            assert(out@ =~= old(out)@ + ser_obj_items(vp, k as int));
        }
        Ok(())
    }
}

/// One more indent level: the prefix extended by the unit.
fn extend_prefix(prefix: &Vec<char>, unit: &Vec<char>) -> (r: Vec<char>)
    ensures
        r@ == prefix@ + unit@,
{
    let mut r: Vec<char> = Vec::new();
    push_chars(prefix, &mut r);
    push_chars(unit, &mut r);
    proof {
        assert(Seq::<char>::empty() + prefix@ + unit@ =~= prefix@ + unit@);
    }
    r
}

/// Appends the pretty text of `v` at nesting level `depth`, where `prefix` is
/// the indentation for that level; fails on a non-finite number, leaving the
/// buffer in an unspecified partial state that the caller discards.
pub fn write_pretty(
    v: &JsonValue,
    unit: &Vec<char>,
    prefix: &Vec<char>,
    Ghost(depth): Ghost<nat>,
    out: &mut Vec<char>,
) -> (r: Result<(), SerializeError>)
    requires
        prefix@ == indent(unit@, depth),
    ensures
        r is Ok <==> all_finite(v@),
        r is Ok ==> final(out)@ == old(out)@ + ser_pretty(v@, unit@, depth),
    decreases v, 0int,
{
    match v {
        JsonValue::Arr(a) => {
            let ghost va = view_arr(a@);
            proof {
                crate::value::lemma_view_arr_len(a@);
            }
            if a.len() == 0 {
                out.push('[');
                out.push(']');
                proof {
                    assert(out@ =~= old(out)@ + ser_pretty(v@, unit@, depth));
                }
                Ok(())
            } else {
                out.push('[');
                out.push('\n');
                let child = extend_prefix(prefix, unit);
                match write_pretty_arr_items(a, unit, &child, Ghost((depth + 1) as nat), 0, out) {
                    Ok(()) => {},
                    Err(e) => {
                        proof {
                            assert(v@ == SpecValue::Arr(va));
                            assert(!all_finite(v@));
                        }
                        return Err(e);
                    },
                }
                push_chars(prefix, out);
                out.push(']');
                proof {
                    assert(out@ =~= old(out)@ + ser_pretty(v@, unit@, depth));
                }
                Ok(())
            }
        },
        JsonValue::Obj(p) => {
            let ghost vp = view_pairs(p@);
            proof {
                crate::value::lemma_view_pairs_len(p@);
            }
            if p.len() == 0 {
                out.push('{');
                out.push('}');
                proof {
                    assert(out@ =~= old(out)@ + ser_pretty(v@, unit@, depth));
                }
                Ok(())
            } else {
                out.push('{');
                out.push('\n');
                let child = extend_prefix(prefix, unit);
                match write_pretty_obj_items(p, unit, &child, Ghost((depth + 1) as nat), 0, out) {
                    Ok(()) => {},
                    Err(e) => {
                        proof {
                            assert(v@ == SpecValue::Obj(vp));
                            assert(!all_finite(v@));
                        }
                        return Err(e);
                    },
                }
                push_chars(prefix, out);
                out.push('}');
                proof {
                    assert(out@ =~= old(out)@ + ser_pretty(v@, unit@, depth));
                }
                Ok(())
            }
        },
        _ => {
            let r = write_compact(v, out);
            proof {
                if r is Ok {
                    assert(ser_pretty(v@, unit@, depth) == ser_compact(v@));
                }
            }
            r
        },
    }
}

/// Appends the pretty lines for the elements of `a` from index `k` on.
fn write_pretty_arr_items(
    a: &Vec<JsonValue>,
    unit: &Vec<char>,
    prefix: &Vec<char>,
    Ghost(depth): Ghost<nat>,
    k: usize,
    out: &mut Vec<char>,
) -> (r: Result<(), SerializeError>)
    requires
        k < a@.len(),
        prefix@ == indent(unit@, depth),
    ensures
        r is Ok <==> arr_all_finite(view_arr(a@), k as int),
        r is Ok ==> final(out)@ == old(out)@ + pretty_arr_items(
            view_arr(a@),
            unit@,
            depth,
            k as int,
        ),
    decreases a, a@.len() - k,
{
    let ghost va = view_arr(a@);
    proof {
        crate::value::lemma_view_arr_len(a@);
        crate::value::lemma_view_arr_index(a@, k as int);
    }
    let n = a.len();
    push_chars(prefix, out);
    match write_pretty(&a[k], unit, prefix, Ghost(depth), out) {
        Ok(()) => {},
        Err(e) => {
            proof {
                assert(!arr_all_finite(view_arr(a@), k as int));
            }
            return Err(e);
        },
    }
    if k + 1 < n {
        out.push(',');
        out.push('\n');
        match write_pretty_arr_items(a, unit, prefix, Ghost(depth), k + 1, out) {
            Ok(()) => {},
            Err(e) => {
                proof {
                    assert(!arr_all_finite(va, k as int));
                }
                return Err(e);
            },
        }
        proof {
            assert(arr_all_finite(va, k as int));
            assert(out@ =~= old(out)@ + pretty_arr_items(va, unit@, depth, k as int));
        }
        Ok(())
    } else {
        out.push('\n');
        proof {
            assert(arr_all_finite(va, k as int + 1));
            assert(arr_all_finite(va, k as int));
            assert(out@ =~= old(out)@ + pretty_arr_items(va, unit@, depth, k as int));
        }
        Ok(())
    }
}

/// Appends the pretty lines for the members of `p` from index `k` on.
fn write_pretty_obj_items(
    p: &Vec<(String, JsonValue)>,
    unit: &Vec<char>,
    prefix: &Vec<char>,
    Ghost(depth): Ghost<nat>,
    k: usize,
    out: &mut Vec<char>,
) -> (r: Result<(), SerializeError>)
    requires
        k < p@.len(),
        prefix@ == indent(unit@, depth),
    ensures
        r is Ok <==> obj_all_finite(view_pairs(p@), k as int),
        r is Ok ==> final(out)@ == old(out)@ + pretty_obj_items(
            view_pairs(p@),
            unit@,
            depth,
            k as int,
        ),
    decreases p, p@.len() - k,
{
    let ghost vp = view_pairs(p@);
    proof {
        crate::value::lemma_view_pairs_len(p@);
        crate::value::lemma_view_pairs_index(p@, k as int);
    }
    let n = p.len();
    push_chars(prefix, out);
    write_str_lit(p[k].0.as_str(), out);
    out.push(':');
    out.push(' ');
    match write_pretty(&p[k].1, unit, prefix, Ghost(depth), out) {
        Ok(()) => {},
        Err(e) => {
            proof {
                assert(!obj_all_finite(view_pairs(p@), k as int));
            }
            return Err(e);
        },
    }
    if k + 1 < n {
        out.push(',');
        out.push('\n');
        match write_pretty_obj_items(p, unit, prefix, Ghost(depth), k + 1, out) {
            Ok(()) => {},
            Err(e) => {
                proof {
                    assert(!obj_all_finite(vp, k as int));
                }
                return Err(e);
            },
        }
        proof {
            assert(obj_all_finite(vp, k as int));
            assert(out@ =~= old(out)@ + pretty_obj_items(vp, unit@, depth, k as int));
        }
        Ok(())
    } else {
        out.push('\n');
        proof {
            assert(obj_all_finite(vp, k as int + 1));
            assert(obj_all_finite(vp, k as int));
            assert(out@ =~= old(out)@ + pretty_obj_items(vp, unit@, depth, k as int));
        }
        Ok(())
    }
}

/// The indent unit that `json_to_string` uses in pretty mode.
pub open spec fn default_unit() -> Seq<char> {
    seq![' ', ' ']
}

/// The whole document as JSON text: compact, or pretty with a two-space
/// indent unit. Fails exactly when the tree holds a non-finite number.
pub fn json_to_string(json: &Json, pretty: bool) -> (r: Result<String, SerializeError>)
    ensures
        match r {
            Ok(s) => all_finite(json@) && s@ == (if pretty {
                ser_pretty(json@, default_unit(), 0)
            } else {
                ser_compact(json@)
            }),
            Err(_) => !all_finite(json@),
        },
{
    let mut out: Vec<char> = Vec::new();
    let ok: Result<(), SerializeError> = if pretty {
        let mut unit: Vec<char> = Vec::new();
        unit.push(' ');
        unit.push(' ');
        let prefix: Vec<char> = Vec::new();
        proof {
            assert(unit@ =~= default_unit());
            assert(prefix@ =~= indent(unit@, 0));
        }
        write_pretty(&json.value, &unit, &prefix, Ghost(0nat), &mut out)
    } else {
        write_compact(&json.value, &mut out)
    };
    match ok {
        Ok(()) => {
            let s = crate::text::chars_to_string(&out);
            proof {
                if pretty {
                    assert(Seq::<char>::empty() + ser_pretty(json@, default_unit(), 0)
                        =~= ser_pretty(json@, default_unit(), 0));
                } else {
                    assert(Seq::<char>::empty() + ser_compact(json@) =~= ser_compact(json@));
                }
            }
            Ok(s)
        },
        Err(e) => Err(e),
    }
}

/// The whole document as pretty JSON text, with an indent unit of
/// `indent_char` repeated `indent` times. Fails exactly when the tree holds a
/// non-finite number.
pub fn json_to_string_custom(json: &Json, indent: usize, indent_char: char) -> (r: Result<
    String,
    SerializeError,
>)
    ensures
        match r {
            Ok(s) => all_finite(json@) && s@ == ser_pretty(
                json@,
                Seq::new(indent as nat, |i: int| indent_char),
                0,
            ),
            Err(_) => !all_finite(json@),
        },
{
    let ghost u = Seq::new(indent as nat, |i: int| indent_char);
    let mut unit: Vec<char> = Vec::new();
    let mut i: usize = 0;
    while i < indent
        invariant
            i <= indent,
            u.len() == indent as nat,
            u == Seq::new(indent as nat, |j: int| indent_char),
            unit@ =~= u.subrange(0, i as int),
        decreases indent - i,
    {
        unit.push(indent_char);
        proof {
            assert(unit@ =~= u.subrange(0, i as int + 1));
        }
        i = i + 1;
    }
    proof {
        assert(unit@ =~= u);
    }
    let prefix: Vec<char> = Vec::new();
    proof {
        assert(prefix@ =~= crate::ser::indent(unit@, 0));
    }
    let mut out: Vec<char> = Vec::new();
    match write_pretty(&json.value, &unit, &prefix, Ghost(0nat), &mut out) {
        Ok(()) => {
            let s = crate::text::chars_to_string(&out);
            proof {
                assert(Seq::<char>::empty() + ser_pretty(json@, u, 0) =~= ser_pretty(json@, u, 0));
            }
            Ok(s)
        },
        Err(e) => Err(e),
    }
}

} // verus!
