//! The round-trip law: parsing the compact serialization of a well-formed,
//! finite value gives back exactly that value.
//!
//! The proof follows the grammar. Each lemma states that a serialized piece,
//! embedded in a larger text and followed by a character that cannot extend
//! it, is parsed back to the piece it came from.

use vstd::prelude::*;

use crate::numtok::lemma_number_token_chars;
use crate::numtok::lemma_scan_number_embed;
use crate::numtok::num_ext;
use crate::numtok::scan_number;
use crate::parse::hex4;
use crate::parse::hex4_at;
use crate::parse::hex_val;
use crate::parse::is_hex;
use crate::parse::is_ws;
use crate::parse::parse_arr_body;
use crate::parse::parse_obj_body;
use crate::parse::parse_string_body;
use crate::parse::parse_value;
use crate::parse::skip_ws;
use crate::parse::spec_parse;
use crate::ser::esc;
use crate::ser::esc_char;
use crate::ser::hex_char;
use crate::ser::indent;
use crate::ser::pretty_arr_items;
use crate::ser::pretty_obj_items;
use crate::ser::ser_pretty;
use crate::ser::ser_arr_items;
use crate::ser::ser_compact;
use crate::ser::ser_obj_items;
use crate::ser::ser_str;
use crate::value::all_finite;
use crate::value::arr_all_finite;
use crate::value::key_absent;
use crate::value::lemma_obj_insert_absent;
use crate::value::obj_all_finite;
use crate::value::obj_insert;
use crate::value::space_free;
use crate::value::ssf_arr;
use crate::value::ssf_obj;
use crate::value::strings_space_free;
use crate::value::wf;
use crate::value::wf_arr;
use crate::value::wf_obj;
use crate::value::SpecNumber;
use crate::value::SpecValue;

verus! {

/// The hexadecimal digit characters decode to their values.
proof fn lemma_hex_char_val(d: int)
    requires
        0 <= d < 16,
    ensures
        is_hex(hex_char(d)),
        hex_val(hex_char(d)) == d,
{
}

/// A key listed as absent is equal to no key from `k` on.
pub proof fn lemma_key_absent_at(p: Seq<(Seq<char>, SpecValue)>, k: int, key: Seq<char>, y: int)
    requires
        key_absent(p, k, key),
        0 <= k <= y < p.len(),
    ensures
        p[y].0 != key,
    decreases y - k,
{
    if y > k {
        lemma_key_absent_at(p, k + 1, key, y);
    }
}

/// The first character of a serialized value: never whitespace, and never a
/// closing bracket, separator or quote-closing surprise.
proof fn lemma_ser_first(v: SpecValue)
    requires
        wf(v),
        all_finite(v),
    ensures
        ser_compact(v).len() >= 1,
        !is_ws(ser_compact(v)[0]),
        ser_compact(v)[0] != ']',
        ser_compact(v)[0] != '}',
        ser_compact(v)[0] != ',',
        ser_compact(v)[0] != ':',
{
    match v {
        SpecValue::Num(n) => {
            let t = n->Finite_0;
            lemma_number_token_chars(t);
            assert(ser_compact(v) == t);
        },
        _ => {},
    }
}

/// An escaped payload embedded at `i` and closed by a quote parses back to
/// the payload, appended to whatever was decoded before.
proof fn lemma_parse_esc(p: Seq<char>, s: Seq<char>, i: int, acc: Seq<char>)
    requires
        0 <= i,
        i + esc(p).len() + 1 <= s.len(),
        forall|k: int| 0 <= k < esc(p).len() ==> s[i + k] == #[trigger] esc(p)[k],
        s[i + esc(p).len()] == '"',
    ensures
        parse_string_body(s, i, acc) == Some((acc + p, i + esc(p).len() + 1)),
    decreases p.len(),
{
    if p.len() == 0 {
        assert(esc(p).len() == 0);
        assert(s[i + 0] == '"');
        assert(acc + p =~= acc);
    } else {
        let c = p[0];
        let rest = p.drop_first();
        let ec = esc_char(c);
        let el = ec.len() as int;
        assert(esc(p) == ec + esc(rest));
        assert forall|k: int| 0 <= k < el implies s[i + k] == #[trigger] ec[k] by {
            assert(esc(p)[k] == ec[k]);
            assert(s[i + k] == esc(p)[k]);
        }
        assert forall|k: int| 0 <= k < esc(rest).len() implies s[i + el + k] == #[trigger] esc(
            rest,
        )[k] by {
            assert(esc(p)[el + k] == esc(rest)[k]);
            assert(s[i + (el + k)] == esc(p)[el + k]);
        }
        assert(i + el + esc(rest).len() == i + esc(p).len());
        assert(s[i + el + esc(rest).len()] == '"');
        if c == '"' || c == '\\' || c == '\u{8}' || c == '\u{c}' || c == '\n' || c == '\r' || c
            == '\t' {
            assert(ec[0] == '\\' && s[i + 0] == ec[0]);
            assert(s[i + 1] == ec[1]);
            lemma_parse_esc(rest, s, i + 2, acc.push(c));
            assert(acc.push(c) + rest =~= acc + p);
        } else if (c as u32) < 32 {
            let cu = c as u32 as int;
            assert(ec == seq!['\\', 'u', '0', '0', hex_char(cu / 16), hex_char(cu % 16)]);
            assert(ec[0] == '\\' && s[i + 0] == ec[0]);
            assert(ec[1] == 'u' && s[i + 1] == ec[1]);
            assert(ec[2] == '0' && s[i + 2] == ec[2]);
            assert(ec[3] == '0' && s[i + 3] == ec[3]);
            assert(ec[4] == hex_char(cu / 16) && s[i + 4] == ec[4]);
            assert(ec[5] == hex_char(cu % 16) && s[i + 5] == ec[5]);
            lemma_hex_char_val(cu / 16);
            lemma_hex_char_val(cu % 16);
            assert(hex4_at(s, i + 2));
            let u = hex4(s, i + 2);
            assert(u == (cu / 16) * 16 + (cu % 16));
            assert(u == cu);
            assert(!(0xD800 <= u && u < 0xDC00));
            assert(!(0xDC00 <= u && u < 0xE000));
            vstd::utf8::char_u32_cast(c, c as u32);
            assert((u as u32) as char == c);
            lemma_parse_esc(rest, s, i + 6, acc.push(c));
            assert(acc.push(c) + rest =~= acc + p);
        } else {
            assert(ec == seq![c]);
            assert(ec[0] == c && s[i + 0] == ec[0]);
            assert(c != '"' && c != '\\' && c as u32 >= 32);
            lemma_parse_esc(rest, s, i + 1, acc.push(c));
            assert(acc.push(c) + rest =~= acc + p);
        }
    }
}

/// A serialized value embedded at `i`, followed by nothing that could extend
/// a number token, parses back to the value.
#[verifier::rlimit(100)]
#[verifier::spinoff_prover]
pub proof fn lemma_parse_ser_at(v: SpecValue, s: Seq<char>, i: int)
    requires
        wf(v),
        all_finite(v),
        0 <= i,
        i + ser_compact(v).len() <= s.len(),
        forall|k: int| 0 <= k < ser_compact(v).len() ==> s[i + k] == #[trigger] ser_compact(v)[k],
        i + ser_compact(v).len() == s.len() || !num_ext(s[i + ser_compact(v).len()]),
    ensures
        parse_value(s, i) == Some((v, i + ser_compact(v).len())),
    decreases v, 0int,
{
    let w = ser_compact(v);
    lemma_ser_first(v);
    assert(s[i + 0] == w[0]);
    assert(skip_ws(s, i) == i);
    match v {
        SpecValue::Null => {
            assert(s[i + 1] == w[1] && s[i + 2] == w[2] && s[i + 3] == w[3]);
        },
        SpecValue::Bool(b) => {
            if b {
                assert(s[i + 1] == w[1] && s[i + 2] == w[2] && s[i + 3] == w[3]);
            } else {
                assert(s[i + 1] == w[1] && s[i + 2] == w[2] && s[i + 3] == w[3] && s[i + 4]
                    == w[4]);
            }
        },
        SpecValue::Num(n) => {
            let t = n->Finite_0;
            assert(w == t);
            lemma_number_token_chars(t);
            lemma_scan_number_embed(t, s, i);
            assert(s.subrange(i, i + t.len()) =~= t);
        },
        SpecValue::Str(p) => {
            assert(w == seq!['"'] + esc(p) + seq!['"']);
            assert(s[i + 0] == '"');
            assert forall|k: int| 0 <= k < esc(p).len() implies s[i + 1 + k] == #[trigger] esc(
                p,
            )[k] by {
                assert(w[1 + k] == esc(p)[k]);
                assert(s[i + (1 + k)] == w[1 + k]);
            }
            assert(w[1 + esc(p).len() as int] == '"');
            assert(s[i + 1 + esc(p).len()] == '"');
            lemma_parse_esc(p, s, i + 1, Seq::empty());
            assert(Seq::empty() + p =~= p);
        },
        SpecValue::Arr(a) => {
            assert(s[i + 0] == '[');
            if a.len() == 0 {
                assert(ser_arr_items(a, 0) =~= Seq::<char>::empty());
                assert(w[1] == ']');
                assert(s[i + 1] == ']');
                assert(skip_ws(s, i + 1) == i + 1);
                assert(a =~= Seq::<SpecValue>::empty());
            } else {
                let items = ser_arr_items(a, 0);
                assert forall|x: int| 0 <= x < items.len() implies s[i + 1 + x]
                    == #[trigger] items[x] by {
                    assert(w[1 + x] == items[x]);
                    assert(s[i + (1 + x)] == w[1 + x]);
                }
                assert(w[1 + items.len() as int] == ']');
                assert(s[i + 1 + items.len()] == ']');
                lemma_parse_ser_arr_items(a, Seq::empty(), s, i + 1, 0);
                assert(Seq::empty() + a.skip(0) =~= a);
                assert(v =~= SpecValue::Arr(Seq::<SpecValue>::empty() + a.skip(0)));
            }
        },
        SpecValue::Obj(p) => {
            assert(s[i + 0] == '{');
            if p.len() == 0 {
                assert(ser_obj_items(p, 0) =~= Seq::<char>::empty());
                assert(w[1] == '}');
                assert(s[i + 1] == '}');
                assert(skip_ws(s, i + 1) == i + 1);
                assert(p =~= Seq::<(Seq<char>, SpecValue)>::empty());
            } else {
                let items = ser_obj_items(p, 0);
                assert forall|x: int| 0 <= x < items.len() implies s[i + 1 + x]
                    == #[trigger] items[x] by {
                    assert(w[1 + x] == items[x]);
                    assert(s[i + (1 + x)] == w[1 + x]);
                }
                assert(w[1 + items.len() as int] == '}');
                assert(s[i + 1 + items.len()] == '}');
                lemma_parse_ser_obj_items(p, Seq::empty(), s, i + 1, 0);
                assert(Seq::empty() + p.skip(0) =~= p);
                assert(v =~= SpecValue::Obj(Seq::<(Seq<char>, SpecValue)>::empty() + p.skip(0)));
            }
        },
    }
}

/// Serialized array elements from `k` on, embedded at `i` and closed by `]`,
/// parse back to those elements appended to `acc`.
#[verifier::rlimit(100)]
#[verifier::spinoff_prover]
proof fn lemma_parse_ser_arr_items(
    a: Seq<SpecValue>,
    acc: Seq<SpecValue>,
    s: Seq<char>,
    i: int,
    k: int,
)
    requires
        0 <= k < a.len(),
        wf_arr(a, k),
        arr_all_finite(a, k),
        0 <= i,
        i + ser_arr_items(a, k).len() + 1 <= s.len(),
        forall|x: int|
            0 <= x < ser_arr_items(a, k).len() ==> s[i + x] == #[trigger] ser_arr_items(a, k)[x],
        s[i + ser_arr_items(a, k).len()] == ']',
    ensures
        parse_arr_body(s, i, acc) == Some(
            (SpecValue::Arr(acc + a.skip(k)), i + ser_arr_items(a, k).len() + 1),
        ),
    decreases a, a.len() - k,
{
    let items = ser_arr_items(a, k);
    let e = ser_compact(a[k]);
    assert(wf(a[k]) && all_finite(a[k]));
    lemma_ser_first(a[k]);
    assert(s[i + 0] == items[0]);
    if k == a.len() - 1 {
        assert(items == e);
    } else {
        assert(items == e + seq![','] + ser_arr_items(a, k + 1));
        assert(items[0] == e[0]);
    }
    assert(skip_ws(s, i) == i);
    assert(s[i] != ']');
    assert forall|x: int| 0 <= x < e.len() implies s[i + x] == #[trigger] e[x] by {
        assert(items[x] == e[x]);
    }
    let q = i + e.len();
    if k == a.len() - 1 {
        assert(s[q] == ']');
        assert(!num_ext(']'));
        lemma_parse_ser_at(a[k], s, i);
        assert(skip_ws(s, q) == q);
        assert(parse_arr_body(s, i, acc) == Some((SpecValue::Arr(acc.push(a[k])), q + 1)));
        assert(acc.push(a[k]) =~= acc + a.skip(k));
    } else {
        assert(items[e.len() as int] == ',');
        assert(s[i + e.len()] == items[e.len() as int]);
        assert(s[q] == ',');
        assert(!num_ext(','));
        lemma_parse_ser_at(a[k], s, i);
        assert(skip_ws(s, q) == q);
        let rest = ser_arr_items(a, k + 1);
        assert forall|x: int| 0 <= x < rest.len() implies s[q + 1 + x] == #[trigger] rest[x] by {
            assert(items[e.len() + 1 + x] == rest[x]);
            assert(s[i + (e.len() + 1 + x)] == items[e.len() + 1 + x]);
        }
        assert(i + items.len() == q + 1 + rest.len());
        assert(s[q + 1 + rest.len()] == ']');
        lemma_parse_ser_arr_items(a, acc.push(a[k]), s, q + 1, k + 1);
        assert(acc.push(a[k]) + a.skip(k + 1) =~= acc + a.skip(k));
        assert(parse_arr_body(s, i, acc) == Some(
            (SpecValue::Arr(acc + a.skip(k)), i + items.len() + 1),
        ));
    }
}

/// Serialized object members from `k` on, embedded at `i` and closed by `}`,
/// parse back to those members appended to `acc`, whose keys are disjoint
/// from the keys still to come.
#[verifier::rlimit(100)]
#[verifier::spinoff_prover]
proof fn lemma_parse_ser_obj_items(
    p: Seq<(Seq<char>, SpecValue)>,
    acc: Seq<(Seq<char>, SpecValue)>,
    s: Seq<char>,
    i: int,
    k: int,
)
    requires
        0 <= k < p.len(),
        wf_obj(p, k),
        obj_all_finite(p, k),
        forall|x: int, y: int|
            0 <= x < acc.len() && k <= y < p.len() ==> (#[trigger] acc[x]).0 != (#[trigger] p[y]).0,
        0 <= i,
        i + ser_obj_items(p, k).len() + 1 <= s.len(),
        forall|x: int|
            0 <= x < ser_obj_items(p, k).len() ==> s[i + x] == #[trigger] ser_obj_items(p, k)[x],
        s[i + ser_obj_items(p, k).len()] == '}',
    ensures
        parse_obj_body(s, i, acc) == Some(
            (SpecValue::Obj(acc + p.skip(k)), i + ser_obj_items(p, k).len() + 1),
        ),
    decreases p, p.len() - k,
{
    let items = ser_obj_items(p, k);
    let key = p[k].0;
    let kl = ser_str(key).len() as int;
    let e = ser_compact(p[k].1);
    let member = ser_str(key) + seq![':'] + e;
    assert(wf(p[k].1) && all_finite(p[k].1));
    if k == p.len() - 1 {
        assert(items == member);
    } else {
        assert(items == member + seq![','] + ser_obj_items(p, k + 1));
    }
    assert forall|x: int| 0 <= x < member.len() implies s[i + x] == #[trigger] member[x] by {
        assert(items[x] == member[x]);
    }
    assert(member[0] == '"');
    assert(s[i + 0] == '"');
    assert(skip_ws(s, i) == i);
    // the key literal
    assert forall|x: int| 0 <= x < esc(key).len() implies s[i + 1 + x] == #[trigger] esc(
        key,
    )[x] by {
        assert(member[1 + x] == esc(key)[x]);
        assert(s[i + (1 + x)] == member[1 + x]);
    }
    assert(member[1 + esc(key).len() as int] == '"');
    assert(s[i + 1 + esc(key).len()] == '"');
    lemma_parse_esc(key, s, i + 1, Seq::empty());
    assert(Seq::empty() + key =~= key);
    let kk = i + 1 + esc(key).len() + 1;
    assert(kk == i + kl);
    // the colon
    assert(member[kl] == ':');
    assert(s[i + kl] == member[kl]);
    assert(skip_ws(s, kk) == kk);
    // the member value
    lemma_ser_first(p[k].1);
    assert forall|x: int| 0 <= x < e.len() implies s[kk + 1 + x] == #[trigger] e[x] by {
        assert(member[kl + 1 + x] == e[x]);
        assert(s[i + (kl + 1 + x)] == member[kl + 1 + x]);
    }
    let q = kk + 1 + e.len();
    assert(q == i + member.len());
    if k == p.len() - 1 {
        assert(s[q] == '}');
        assert(!num_ext('}'));
    } else {
        assert(items[member.len() as int] == ',');
        assert(s[i + member.len()] == items[member.len() as int]);
        assert(s[q] == ',');
        assert(!num_ext(','));
    }
    lemma_parse_ser_at(p[k].1, s, kk + 1);
    assert(skip_ws(s, q) == q);
    // the insertion appends: the key is absent from acc
    assert forall|x: int| 0 <= x < acc.len() implies (#[trigger] acc[x]).0 != key by {
        assert(acc[x].0 != p[k].0);
    }
    lemma_obj_insert_absent(acc, key, p[k].1);
    assert(obj_insert(acc, key, p[k].1) == acc.push((key, p[k].1)));
    assert((key, p[k].1) == p[k]);
    if k == p.len() - 1 {
        assert(parse_obj_body(s, i, acc) == Some(
            (SpecValue::Obj(acc.push(p[k])), i + items.len() + 1),
        ));
        assert(acc.push(p[k]) =~= acc + p.skip(k));
    } else {
        let rest = ser_obj_items(p, k + 1);
        assert forall|x: int| 0 <= x < rest.len() implies s[q + 1 + x] == #[trigger] rest[x] by {
            assert(items[member.len() + 1 + x] == rest[x]);
            assert(s[i + (member.len() + 1 + x)] == items[member.len() + 1 + x]);
        }
        assert(i + items.len() == q + 1 + rest.len());
        assert(s[q + 1 + rest.len()] == '}');
        assert forall|x: int, y: int|
            0 <= x < acc.push(p[k]).len() && k + 1 <= y < p.len() implies (#[trigger] acc.push(
            p[k],
        )[x]).0 != (#[trigger] p[y]).0 by {
            if x < acc.len() {
                assert(acc[x].0 != p[y].0);
            } else {
                lemma_key_absent_at(p, k + 1, p[k].0, y);
            }
        }
        lemma_parse_ser_obj_items(p, acc.push(p[k]), s, q + 1, k + 1);
        assert(acc.push(p[k]) + p.skip(k + 1) =~= acc + p.skip(k));
        assert(parse_obj_body(s, i, acc) == Some(
            (SpecValue::Obj(acc + p.skip(k)), i + items.len() + 1),
        ));
    }
}

/// An indent unit of whitespace only: what the pretty round trip asks of the
/// configured indentation.
pub open spec fn ws_unit(unit: Seq<char>) -> bool {
    forall|k: int| 0 <= k < unit.len() ==> is_ws(#[trigger] unit[k])
}

/// Skipping whitespace stops in bounds, at the first significant character.
proof fn lemma_skip_ws_bounds(s: Seq<char>, i: int)
    requires
        0 <= i <= s.len(),
    ensures
        i <= skip_ws(s, i) <= s.len(),
        skip_ws(s, i) == s.len() || !is_ws(s[skip_ws(s, i)]),
    decreases s.len() - i,
{
    if i < s.len() && is_ws(s[i]) {
        lemma_skip_ws_bounds(s, i + 1);
    }
}

/// A whitespace run ending at the first significant character is skipped
/// exactly.
proof fn lemma_skip_ws_run(s: Seq<char>, i: int, j: int)
    requires
        0 <= i <= j <= s.len(),
        forall|k: int| i <= k < j ==> is_ws(#[trigger] s[k]),
        j == s.len() || !is_ws(s[j]),
    ensures
        skip_ws(s, i) == j,
    decreases j - i,
{
    if i < j {
        lemma_skip_ws_run(s, i + 1, j);
    }
}

/// Parsing a value is unmoved by the whitespace before it.
proof fn lemma_parse_value_skip(s: Seq<char>, i: int)
    requires
        0 <= i <= s.len(),
    ensures
        parse_value(s, i) == parse_value(s, skip_ws(s, i)),
{
    lemma_skip_ws_bounds(s, i);
    let j = skip_ws(s, i);
    assert(skip_ws(s, j) == j);
}

/// Every character of an indentation prefix is whitespace.
proof fn lemma_indent_ws(unit: Seq<char>, depth: nat)
    requires
        ws_unit(unit),
    ensures
        forall|x: int|
            0 <= x < indent(unit, depth).len() ==> is_ws(#[trigger] indent(unit, depth)[x]),
    decreases depth,
{
    if depth > 0 {
        lemma_indent_ws(unit, (depth - 1) as nat);
        let prev = indent(unit, (depth - 1) as nat);
        assert(indent(unit, depth) == prev + unit);
        assert forall|x: int| 0 <= x < indent(unit, depth).len() implies is_ws(
            #[trigger] indent(unit, depth)[x],
        ) by {
            if x < prev.len() {
                assert(indent(unit, depth)[x] == prev[x]);
            } else {
                assert(indent(unit, depth)[x] == unit[x - prev.len()]);
            }
        }
    }
}

/// The first character of a pretty serialization: the same dispatch character
/// as the compact form, never whitespace and never a closer or separator.
proof fn lemma_pretty_first(v: SpecValue, unit: Seq<char>, depth: nat)
    requires
        wf(v),
        all_finite(v),
    ensures
        ser_pretty(v, unit, depth).len() >= 1,
        !is_ws(ser_pretty(v, unit, depth)[0]),
        ser_pretty(v, unit, depth)[0] != ']',
        ser_pretty(v, unit, depth)[0] != '}',
        ser_pretty(v, unit, depth)[0] != ',',
        ser_pretty(v, unit, depth)[0] != ':',
{
    match v {
        SpecValue::Arr(_) => {},
        SpecValue::Obj(_) => {},
        _ => {
            lemma_ser_first(v);
        },
    }
}

/// Every character an escaped payload emits is printable-or-space, and holds
/// no space at all when the payload holds none.
proof fn lemma_esc_clean(p: Seq<char>)
    ensures
        forall|x: int| 0 <= x < esc(p).len() ==> (#[trigger] esc(p)[x]) as u32 >= 32,
        space_free(p) ==> forall|x: int|
            0 <= x < esc(p).len() ==> (#[trigger] esc(p)[x]) != ' ',
    decreases p.len(),
{
    if p.len() > 0 {
        let c = p[0];
        let rest = p.drop_first();
        let ec = esc_char(c);
        let el = ec.len() as int;
        assert(esc(p) == ec + esc(rest));
        lemma_esc_clean(rest);
        if space_free(p) {
            assert forall|k: int| 0 <= k < rest.len() implies (#[trigger] rest[k]) != ' ' by {
                assert(rest[k] == p[k + 1]);
            }
        }
        assert forall|x: int| 0 <= x < el implies (#[trigger] ec[x]) as u32 >= 32 && (c != ' '
            ==> ec[x] != ' ') by {
            if !(c == '"' || c == '\\' || c == '\u{8}' || c == '\u{c}' || c == '\n' || c == '\r'
                || c == '\t') && (c as u32) < 32 {
                let cu = c as u32 as int;
                assert(ec[x] == seq![
                    '\\',
                    'u',
                    '0',
                    '0',
                    hex_char(cu / 16),
                    hex_char(cu % 16),
                ][x]);
            }
        }
        assert forall|x: int| 0 <= x < esc(p).len() implies (#[trigger] esc(p)[x]) as u32
            >= 32 && (space_free(p) ==> esc(p)[x] != ' ') by {
            if x < el {
                assert(esc(p)[x] == ec[x]);
                if space_free(p) {
                    assert(p[0] != ' ');
                }
            } else {
                assert(esc(p)[x] == esc(rest)[x - el]);
            }
        }
    }
}

/// Every character of a compact serialization is printable-or-space, and the
/// space character itself appears only where a string payload or key holds
/// one.
pub proof fn lemma_compact_whitespace(v: SpecValue)
    requires
        wf(v),
    ensures
        forall|x: int|
            0 <= x < ser_compact(v).len() ==> (#[trigger] ser_compact(v)[x]) as u32 >= 32,
        strings_space_free(v) ==> forall|x: int|
            0 <= x < ser_compact(v).len() ==> !is_ws(#[trigger] ser_compact(v)[x]),
    decreases v, 0int,
{
    let w = ser_compact(v);
    match v {
        SpecValue::Num(n) => {
            if n is Finite {
                let t = n->Finite_0;
                lemma_number_token_chars(t);
                assert forall|x: int| 0 <= x < w.len() implies (#[trigger] w[x]) as u32 >= 32
                    && w[x] != ' ' by {
                    assert(crate::numtok::num_token_char(t[x]));
                }
            }
        },
        SpecValue::Str(p) => {
            lemma_esc_clean(p);
            assert forall|x: int| 0 <= x < w.len() implies (#[trigger] w[x]) as u32 >= 32 && (
            strings_space_free(v) ==> w[x] != ' ') by {
                if 1 <= x < 1 + esc(p).len() {
                    assert(w[x] == esc(p)[x - 1]);
                } else {
                    assert(w[x] == '"');
                }
            }
        },
        SpecValue::Arr(a) => {
            if a.len() > 0 {
                lemma_compact_ws_arr_items(a, 0);
            }
            let items = ser_arr_items(a, 0);
            assert forall|x: int| 0 <= x < w.len() implies (#[trigger] w[x]) as u32 >= 32 && (
            strings_space_free(v) ==> w[x] != ' ') by {
                if 1 <= x < 1 + items.len() {
                    assert(w[x] == items[x - 1]);
                } else {
                    assert(w[x] == '[' || w[x] == ']');
                }
            }
        },
        SpecValue::Obj(p) => {
            if p.len() > 0 {
                lemma_compact_ws_obj_items(p, 0);
            }
            let items = ser_obj_items(p, 0);
            assert forall|x: int| 0 <= x < w.len() implies (#[trigger] w[x]) as u32 >= 32 && (
            strings_space_free(v) ==> w[x] != ' ') by {
                if 1 <= x < 1 + items.len() {
                    assert(w[x] == items[x - 1]);
                } else {
                    assert(w[x] == '{' || w[x] == '}');
                }
            }
        },
        _ => {},
    }
}

/// As `lemma_compact_whitespace`, for the elements of an array from `k` on.
proof fn lemma_compact_ws_arr_items(a: Seq<SpecValue>, k: int)
    requires
        0 <= k < a.len(),
        wf_arr(a, k),
    ensures
        forall|x: int|
            0 <= x < ser_arr_items(a, k).len() ==> (#[trigger] ser_arr_items(a, k)[x]) as u32
                >= 32,
        ssf_arr(a, k) ==> forall|x: int|
            0 <= x < ser_arr_items(a, k).len() ==> (#[trigger] ser_arr_items(a, k)[x]) != ' ',
    decreases a, a.len() - k,
{
    let items = ser_arr_items(a, k);
    let e = ser_compact(a[k]);
    lemma_compact_whitespace(a[k]);
    if k == a.len() - 1 {
        assert forall|x: int| 0 <= x < items.len() implies (#[trigger] items[x]) as u32 >= 32 && (
        ssf_arr(a, k) ==> items[x] != ' ') by {
            assert(items[x] == e[x]);
        }
    } else {
        lemma_compact_ws_arr_items(a, k + 1);
        let rest = ser_arr_items(a, k + 1);
        assert(items == e + seq![','] + rest);
        assert forall|x: int| 0 <= x < items.len() implies (#[trigger] items[x]) as u32 >= 32 && (
        ssf_arr(a, k) ==> items[x] != ' ') by {
            if x < e.len() {
                assert(items[x] == e[x]);
            } else if x == e.len() {
                assert(items[x] == ',');
            } else {
                assert(items[x] == rest[x - e.len() - 1]);
            }
        }
    }
}

/// As `lemma_compact_whitespace`, for the members of an object from `k` on.
proof fn lemma_compact_ws_obj_items(p: Seq<(Seq<char>, SpecValue)>, k: int)
    requires
        0 <= k < p.len(),
        wf_obj(p, k),
    ensures
        forall|x: int|
            0 <= x < ser_obj_items(p, k).len() ==> (#[trigger] ser_obj_items(p, k)[x]) as u32
                >= 32,
        ssf_obj(p, k) ==> forall|x: int|
            0 <= x < ser_obj_items(p, k).len() ==> (#[trigger] ser_obj_items(p, k)[x]) != ' ',
    decreases p, p.len() - k,
{
    let items = ser_obj_items(p, k);
    let key = p[k].0;
    let kl = ser_str(key).len() as int;
    let e = ser_compact(p[k].1);
    let member = ser_str(key) + seq![':'] + e;
    lemma_compact_whitespace(p[k].1);
    lemma_esc_clean(key);
    assert forall|x: int| 0 <= x < member.len() implies (#[trigger] member[x]) as u32 >= 32 && (
    space_free(key) && strings_space_free(p[k].1) ==> member[x] != ' ') by {
        if x < kl {
            assert(member[x] == ser_str(key)[x]);
            if 1 <= x < 1 + esc(key).len() {
                assert(ser_str(key)[x] == esc(key)[x - 1]);
            } else {
                assert(ser_str(key)[x] == '"');
            }
        } else if x == kl {
            assert(member[x] == ':');
        } else {
            assert(member[x] == e[x - kl - 1]);
        }
    }
    if k == p.len() - 1 {
        assert(items == member);
    } else {
        lemma_compact_ws_obj_items(p, k + 1);
        let rest = ser_obj_items(p, k + 1);
        assert(items == member + seq![','] + rest);
        assert forall|x: int| 0 <= x < items.len() implies (#[trigger] items[x]) as u32 >= 32 && (
        ssf_obj(p, k) ==> items[x] != ' ') by {
            if x < member.len() {
                assert(items[x] == member[x]);
            } else if x == member.len() {
                assert(items[x] == ',');
            } else {
                assert(items[x] == rest[x - member.len() - 1]);
            }
        }
    }
}

/// A pretty serialization embedded at `i`, followed by nothing that could
/// extend a number token, parses back to the value.
#[verifier::rlimit(100)]
#[verifier::spinoff_prover]
pub proof fn lemma_parse_pretty_at(v: SpecValue, unit: Seq<char>, depth: nat, s: Seq<char>, i: int)
    requires
        wf(v),
        all_finite(v),
        ws_unit(unit),
        0 <= i,
        i + ser_pretty(v, unit, depth).len() <= s.len(),
        forall|k: int|
            0 <= k < ser_pretty(v, unit, depth).len() ==> s[i + k] == #[trigger] ser_pretty(
                v,
                unit,
                depth,
            )[k],
        i + ser_pretty(v, unit, depth).len() == s.len() || !num_ext(
            s[i + ser_pretty(v, unit, depth).len()],
        ),
    ensures
        parse_value(s, i) == Some((v, i + ser_pretty(v, unit, depth).len())),
    decreases v, 0int,
{
    let w = ser_pretty(v, unit, depth);
    match v {
        SpecValue::Arr(a) => {
            lemma_pretty_first(v, unit, depth);
            assert(s[i + 0] == w[0]);
            assert(skip_ws(s, i) == i);
            if a.len() == 0 {
                assert(w == seq!['[', ']']);
                assert(s[i + 1] == ']');
                assert(skip_ws(s, i + 1) == i + 1);
                assert(a =~= Seq::<SpecValue>::empty());
            } else {
                let d1 = (depth + 1) as nat;
                let items = pretty_arr_items(a, unit, d1, 0);
                let ind = indent(unit, depth);
                assert(w == seq!['[', '\n'] + items + ind + seq![']']);
                let il = i + 2;
                let cpos = il + items.len() + ind.len();
                assert(s[i + 1] == w[1]);
                assert(w[1] == '\n');
                assert forall|x: int| 0 <= x < items.len() implies s[il + x]
                    == #[trigger] items[x] by {
                    assert(w[2 + x] == items[x]);
                    assert(s[i + (2 + x)] == w[2 + x]);
                }
                lemma_indent_ws(unit, depth);
                assert forall|x: int| il + items.len() <= x < cpos implies is_ws(
                    #[trigger] s[x],
                ) by {
                    let o = x - il - items.len();
                    assert(w[2 + items.len() + o] == ind[o]);
                    assert(s[i + (2 + items.len() + o)] == w[2 + items.len() + o]);
                }
                assert(w[2 + items.len() + ind.len() as int] == ']');
                assert(s[i + (2 + items.len() + ind.len())] == w[2 + items.len() + ind.len() as int]);
                assert(s[cpos] == ']');
                lemma_parse_pretty_arr_items(a, Seq::empty(), unit, d1, s, i + 1, il, cpos, 0);
                assert(Seq::empty() + a.skip(0) =~= a);
                assert(v =~= SpecValue::Arr(Seq::<SpecValue>::empty() + a.skip(0)));
                assert(cpos + 1 == i + w.len());
            }
        },
        SpecValue::Obj(p) => {
            lemma_pretty_first(v, unit, depth);
            assert(s[i + 0] == w[0]);
            assert(skip_ws(s, i) == i);
            if p.len() == 0 {
                assert(w == seq!['{', '}']);
                assert(s[i + 1] == '}');
                assert(skip_ws(s, i + 1) == i + 1);
                assert(p =~= Seq::<(Seq<char>, SpecValue)>::empty());
            } else {
                let d1 = (depth + 1) as nat;
                let items = pretty_obj_items(p, unit, d1, 0);
                let ind = indent(unit, depth);
                assert(w == seq!['{', '\n'] + items + ind + seq!['}']);
                let il = i + 2;
                let cpos = il + items.len() + ind.len();
                assert(s[i + 1] == w[1]);
                assert(w[1] == '\n');
                assert forall|x: int| 0 <= x < items.len() implies s[il + x]
                    == #[trigger] items[x] by {
                    assert(w[2 + x] == items[x]);
                    assert(s[i + (2 + x)] == w[2 + x]);
                }
                lemma_indent_ws(unit, depth);
                assert forall|x: int| il + items.len() <= x < cpos implies is_ws(
                    #[trigger] s[x],
                ) by {
                    let o = x - il - items.len();
                    assert(w[2 + items.len() + o] == ind[o]);
                    assert(s[i + (2 + items.len() + o)] == w[2 + items.len() + o]);
                }
                assert(w[2 + items.len() + ind.len() as int] == '}');
                assert(s[i + (2 + items.len() + ind.len())] == w[2 + items.len() + ind.len() as int]);
                assert(s[cpos] == '}');
                lemma_parse_pretty_obj_items(p, Seq::empty(), unit, d1, s, i + 1, il, cpos, 0);
                assert(Seq::empty() + p.skip(0) =~= p);
                assert(v =~= SpecValue::Obj(Seq::<(Seq<char>, SpecValue)>::empty() + p.skip(0)));
                assert(cpos + 1 == i + w.len());
            }
        },
        _ => {
            assert(w == ser_compact(v));
            lemma_parse_ser_at(v, s, i);
        },
    }
}

/// Pretty lines for array elements from `k` on: embedded at `il`, reached by
/// whitespace from `start`, and closed by `]` at `cpos` after whitespace.
#[verifier::rlimit(100)]
#[verifier::spinoff_prover]
proof fn lemma_parse_pretty_arr_items(
    a: Seq<SpecValue>,
    acc: Seq<SpecValue>,
    unit: Seq<char>,
    depth: nat,
    s: Seq<char>,
    start: int,
    il: int,
    cpos: int,
    k: int,
)
    requires
        0 <= k < a.len(),
        wf_arr(a, k),
        arr_all_finite(a, k),
        ws_unit(unit),
        0 <= start <= il,
        il + pretty_arr_items(a, unit, depth, k).len() <= cpos < s.len(),
        forall|x: int| start <= x < il ==> is_ws(#[trigger] s[x]),
        forall|x: int|
            0 <= x < pretty_arr_items(a, unit, depth, k).len() ==> s[il + x]
                == #[trigger] pretty_arr_items(a, unit, depth, k)[x],
        forall|x: int|
            il + pretty_arr_items(a, unit, depth, k).len() <= x < cpos ==> is_ws(#[trigger] s[x]),
        s[cpos] == ']',
    ensures
        parse_arr_body(s, start, acc) == Some((SpecValue::Arr(acc + a.skip(k)), cpos + 1)),
    decreases a, a.len() - k,
{
    let items = pretty_arr_items(a, unit, depth, k);
    let ind = indent(unit, depth);
    let e = ser_pretty(a[k], unit, depth);
    assert(wf(a[k]) && all_finite(a[k]));
    lemma_pretty_first(a[k], unit, depth);
    lemma_indent_ws(unit, depth);
    if k == a.len() - 1 {
        assert(items == ind + e + seq!['\n']);
    } else {
        assert(items == ind + e + seq![',', '\n'] + pretty_arr_items(a, unit, depth, k + 1));
    }
    let el = il + ind.len();
    assert forall|x: int| start <= x < el implies is_ws(#[trigger] s[x]) by {
        if x >= il {
            assert(items[x - il] == ind[x - il]);
            assert(s[il + (x - il)] == items[x - il]);
        }
    }
    assert forall|x: int| 0 <= x < e.len() implies s[el + x] == #[trigger] e[x] by {
        assert(items[ind.len() + x] == e[x]);
        assert(s[il + (ind.len() + x)] == items[ind.len() + x]);
    }
    assert(s[el + 0] == e[0]);
    lemma_skip_ws_run(s, start, el);
    assert(s[el] != ']');
    let q = el + e.len();
    assert(s[il + (ind.len() + e.len())] == items[ind.len() + e.len() as int]);
    if k == a.len() - 1 {
        assert(items[ind.len() + e.len() as int] == '\n');
        assert(s[q] == '\n');
        assert(!num_ext('\n'));
        lemma_parse_pretty_at(a[k], unit, depth, s, el);
        assert forall|x: int| q <= x < cpos implies is_ws(#[trigger] s[x]) by {
            if x > q {
                assert(x >= il + items.len());
            }
        }
        lemma_skip_ws_run(s, q, cpos);
        assert(parse_arr_body(s, start, acc) == Some((SpecValue::Arr(acc.push(a[k])), cpos + 1)));
        assert(acc.push(a[k]) =~= acc + a.skip(k));
    } else {
        let rest = pretty_arr_items(a, unit, depth, k + 1);
        assert(items[ind.len() + e.len() as int] == ',');
        assert(s[q] == ',');
        assert(!num_ext(','));
        lemma_parse_pretty_at(a[k], unit, depth, s, el);
        assert(skip_ws(s, q) == q);
        assert(items[ind.len() + e.len() + 1 as int] == '\n');
        assert(s[il + (ind.len() + e.len() + 1)] == items[ind.len() + e.len() + 1 as int]);
        assert(s[q + 1] == '\n');
        assert forall|x: int| 0 <= x < rest.len() implies s[q + 2 + x] == #[trigger] rest[x] by {
            assert(items[ind.len() + e.len() + 2 + x as int] == rest[x]);
            assert(s[il + (ind.len() + e.len() + 2 + x)] == items[ind.len() + e.len() + 2 + x as int]);
        }
        assert(q + 2 + rest.len() == il + items.len());
        lemma_parse_pretty_arr_items(a, acc.push(a[k]), unit, depth, s, q + 1, q + 2, cpos, k + 1);
        assert(acc.push(a[k]) + a.skip(k + 1) =~= acc + a.skip(k));
        assert(parse_arr_body(s, start, acc) == Some((SpecValue::Arr(acc + a.skip(k)), cpos + 1)));
    }
}

/// Pretty lines for object members from `k` on: embedded at `il`, reached by
/// whitespace from `start`, and closed by `}` at `cpos` after whitespace.
#[verifier::rlimit(100)]
#[verifier::spinoff_prover]
proof fn lemma_parse_pretty_obj_items(
    p: Seq<(Seq<char>, SpecValue)>,
    acc: Seq<(Seq<char>, SpecValue)>,
    unit: Seq<char>,
    depth: nat,
    s: Seq<char>,
    start: int,
    il: int,
    cpos: int,
    k: int,
)
    requires
        0 <= k < p.len(),
        wf_obj(p, k),
        obj_all_finite(p, k),
        ws_unit(unit),
        forall|x: int, y: int|
            0 <= x < acc.len() && k <= y < p.len() ==> (#[trigger] acc[x]).0 != (#[trigger] p[y]).0,
        0 <= start <= il,
        il + pretty_obj_items(p, unit, depth, k).len() <= cpos < s.len(),
        forall|x: int| start <= x < il ==> is_ws(#[trigger] s[x]),
        forall|x: int|
            0 <= x < pretty_obj_items(p, unit, depth, k).len() ==> s[il + x]
                == #[trigger] pretty_obj_items(p, unit, depth, k)[x],
        forall|x: int|
            il + pretty_obj_items(p, unit, depth, k).len() <= x < cpos ==> is_ws(#[trigger] s[x]),
        s[cpos] == '}',
    ensures
        parse_obj_body(s, start, acc) == Some((SpecValue::Obj(acc + p.skip(k)), cpos + 1)),
    decreases p, p.len() - k,
{
    let items = pretty_obj_items(p, unit, depth, k);
    let ind = indent(unit, depth);
    let key = p[k].0;
    let kl = ser_str(key).len() as int;
    let e = ser_pretty(p[k].1, unit, depth);
    let member = ind + ser_str(key) + seq![':', ' '] + e;
    assert(wf(p[k].1) && all_finite(p[k].1));
    lemma_pretty_first(p[k].1, unit, depth);
    lemma_indent_ws(unit, depth);
    if k == p.len() - 1 {
        assert(items == member + seq!['\n']);
    } else {
        assert(items == member + seq![',', '\n'] + pretty_obj_items(p, unit, depth, k + 1));
    }
    assert forall|x: int| 0 <= x < member.len() implies s[il + x] == #[trigger] member[x] by {
        assert(items[x] == member[x]);
    }
    let ks = il + ind.len();
    assert forall|x: int| start <= x < ks implies is_ws(#[trigger] s[x]) by {
        if x >= il {
            assert(member[x - il] == ind[x - il]);
            assert(s[il + (x - il)] == member[x - il]);
        }
    }
    assert(member[ind.len() as int] == ser_str(key)[0]);
    assert(s[il + ind.len()] == member[ind.len() as int]);
    assert(s[ks] == '"');
    lemma_skip_ws_run(s, start, ks);
    // the key literal
    assert forall|x: int| 0 <= x < esc(key).len() implies s[ks + 1 + x] == #[trigger] esc(
        key,
    )[x] by {
        assert(member[ind.len() + 1 + x as int] == ser_str(key)[1 + x]);
        assert(ser_str(key)[1 + x] == esc(key)[x]);
        assert(s[il + (ind.len() + 1 + x)] == member[ind.len() + 1 + x as int]);
    }
    assert(member[ind.len() + 1 + esc(key).len() as int] == ser_str(key)[1 + esc(key).len() as int]);
    assert(ser_str(key)[1 + esc(key).len() as int] == '"');
    assert(s[il + (ind.len() + 1 + esc(key).len())] == member[ind.len() + 1 + esc(key).len() as int]);
    assert(s[ks + 1 + esc(key).len()] == '"');
    lemma_parse_esc(key, s, ks + 1, Seq::empty());
    assert(Seq::empty() + key =~= key);
    let kk = ks + kl;
    // the colon and the space
    assert(member[ind.len() + kl as int] == ':');
    assert(s[il + (ind.len() + kl)] == member[ind.len() + kl as int]);
    assert(s[kk] == ':');
    assert(skip_ws(s, kk) == kk);
    assert(member[ind.len() + kl + 1 as int] == ' ');
    assert(s[il + (ind.len() + kl + 1)] == member[ind.len() + kl + 1 as int]);
    assert(s[kk + 1] == ' ');
    // the member value
    let el = kk + 2;
    assert forall|x: int| 0 <= x < e.len() implies s[el + x] == #[trigger] e[x] by {
        assert(member[ind.len() + kl + 2 + x as int] == e[x]);
        assert(s[il + (ind.len() + kl + 2 + x)] == member[ind.len() + kl + 2 + x as int]);
    }
    assert(s[el + 0] == e[0]);
    lemma_skip_ws_run(s, kk + 1, el);
    lemma_parse_value_skip(s, kk + 1);
    let q = el + e.len();
    assert(q == il + member.len());
    assert(s[il + member.len()] == items[member.len() as int]);
    if k == p.len() - 1 {
        assert(items[member.len() as int] == '\n');
        assert(s[q] == '\n');
        assert(!num_ext('\n'));
    } else {
        assert(items[member.len() as int] == ',');
        assert(s[q] == ',');
        assert(!num_ext(','));
    }
    lemma_parse_pretty_at(p[k].1, unit, depth, s, el);
    assert(parse_value(s, kk + 1) == Some((p[k].1, q)));
    // the insertion appends: the key is absent from acc
    assert forall|x: int| 0 <= x < acc.len() implies (#[trigger] acc[x]).0 != key by {
        assert(acc[x].0 != p[k].0);
    }
    lemma_obj_insert_absent(acc, key, p[k].1);
    assert(obj_insert(acc, key, p[k].1) == acc.push((key, p[k].1)));
    assert((key, p[k].1) == p[k]);
    if k == p.len() - 1 {
        assert forall|x: int| q <= x < cpos implies is_ws(#[trigger] s[x]) by {
            if x > q {
                assert(x >= il + items.len());
            }
        }
        lemma_skip_ws_run(s, q, cpos);
        assert(parse_obj_body(s, start, acc) == Some((SpecValue::Obj(acc.push(p[k])), cpos + 1)));
        assert(acc.push(p[k]) =~= acc + p.skip(k));
    } else {
        let rest = pretty_obj_items(p, unit, depth, k + 1);
        assert(skip_ws(s, q) == q);
        assert(items[member.len() + 1 as int] == '\n');
        assert(s[il + (member.len() + 1)] == items[member.len() + 1 as int]);
        assert(s[q + 1] == '\n');
        assert forall|x: int| 0 <= x < rest.len() implies s[q + 2 + x] == #[trigger] rest[x] by {
            assert(items[member.len() + 2 + x as int] == rest[x]);
            assert(s[il + (member.len() + 2 + x)] == items[member.len() + 2 + x as int]);
        }
        assert(q + 2 + rest.len() == il + items.len());
        assert forall|x: int, y: int|
            0 <= x < acc.push(p[k]).len() && k + 1 <= y < p.len() implies (#[trigger] acc.push(
            p[k],
        )[x]).0 != (#[trigger] p[y]).0 by {
            if x < acc.len() {
                assert(acc[x].0 != p[y].0);
            } else {
                lemma_key_absent_at(p, k + 1, p[k].0, y);
            }
        }
        lemma_parse_pretty_obj_items(p, acc.push(p[k]), unit, depth, s, q + 1, q + 2, cpos, k + 1);
        assert(acc.push(p[k]) + p.skip(k + 1) =~= acc + p.skip(k));
        assert(parse_obj_body(s, start, acc) == Some((SpecValue::Obj(acc + p.skip(k)), cpos + 1)));
    }
}

/// Whatever parsing returns is well-formed and holds only finite numbers.
pub proof fn lemma_parse_value_wf(s: Seq<char>, i: int)
    requires
        0 <= i,
    ensures
        parse_value(s, i) matches Some(r) ==> wf(r.0) && all_finite(r.0),
    decreases s.len() - i, 0int,
{
    let j = skip_ws(s, i);
    if j < i || j >= s.len() {
    } else {
        let c = s[j];
        if c == '{' {
            lemma_parse_obj_body_wf(s, j + 1, Seq::empty());
        } else if c == '[' {
            lemma_parse_arr_body_wf(s, j + 1, Seq::empty());
        } else if c == '-' || (48 <= c as u32 && c as u32 <= 57) {
            if scan_number(s, j) is Some {
                crate::numtok::lemma_scan_number_bounds(s, j);
                crate::numtok::lemma_scan_number_token(s, j);
            }
        }
    }
}

/// As `lemma_parse_value_wf`, for the rest of an array: given well-formed,
/// finite elements so far, the whole parsed array is well-formed and finite.
proof fn lemma_parse_arr_body_wf(s: Seq<char>, i: int, acc: Seq<SpecValue>)
    requires
        0 <= i,
        wf_arr(acc, 0),
        arr_all_finite(acc, 0),
    ensures
        parse_arr_body(s, i, acc) matches Some(r) ==> wf(r.0) && all_finite(r.0),
    decreases s.len() - i, 1int,
{
    let j = skip_ws(s, i);
    if j < i || j > s.len() {
    } else if acc.len() == 0 && j < s.len() && s[j] == ']' {
    } else {
        match parse_value(s, j) {
            Option::None => {},
            Option::Some((v, k)) => {
                lemma_parse_value_wf(s, j);
                if k <= j || k > s.len() {
                } else {
                    let m = skip_ws(s, k);
                    if m < k {
                    } else {
                        crate::value::lemma_wf_arr_push(acc, v, 0);
                        crate::value::lemma_finite_arr_push(acc, v, 0);
                        if m < s.len() && s[m] == ',' {
                            lemma_parse_arr_body_wf(s, m + 1, acc.push(v));
                        }
                    }
                }
            },
        }
    }
}

/// As `lemma_parse_value_wf`, for the rest of an object.
proof fn lemma_parse_obj_body_wf(s: Seq<char>, i: int, acc: Seq<(Seq<char>, SpecValue)>)
    requires
        0 <= i,
        wf_obj(acc, 0),
        obj_all_finite(acc, 0),
    ensures
        parse_obj_body(s, i, acc) matches Some(r) ==> wf(r.0) && all_finite(r.0),
    decreases s.len() - i, 1int,
{
    let j = skip_ws(s, i);
    if j < i || j > s.len() {
    } else if acc.len() == 0 && j < s.len() && s[j] == '}' {
    } else if !(j < s.len() && s[j] == '"') {
    } else {
        match parse_string_body(s, j + 1, Seq::empty()) {
            Option::None => {},
            Option::Some((key, k)) => {
                if k <= j + 1 || k > s.len() {
                } else {
                    let m = skip_ws(s, k);
                    if m < k || !(m < s.len() && s[m] == ':') {
                    } else {
                        match parse_value(s, m + 1) {
                            Option::None => {},
                            Option::Some((v, q)) => {
                                lemma_parse_value_wf(s, m + 1);
                                if q <= m + 1 || q > s.len() {
                                } else {
                                    let w = skip_ws(s, q);
                                    if w < q {
                                    } else {
                                        crate::value::lemma_obj_insert_wf(acc, key, v);
                                        crate::value::lemma_obj_insert_finite(acc, key, v);
                                        if w < s.len() && s[w] == ',' {
                                            lemma_parse_obj_body_wf(
                                                s,
                                                w + 1,
                                                obj_insert(acc, key, v),
                                            );
                                        }
                                    }
                                }
                            },
                        }
                    }
                }
            },
        }
    }
}

/// Round trip, pretty form: parsing the pretty serialization of any
/// well-formed value whose numbers are all finite, rendered with a
/// whitespace-only indent unit, gives back exactly that value.
pub proof fn lemma_round_trip_pretty(v: SpecValue, unit: Seq<char>)
    requires
        wf(v),
        all_finite(v),
        ws_unit(unit),
    ensures
        spec_parse(ser_pretty(v, unit, 0)) == Some(v),
{
    let s = ser_pretty(v, unit, 0);
    assert forall|k: int| 0 <= k < s.len() implies s[0 + k] == #[trigger] s[k] by {}
    lemma_parse_pretty_at(v, unit, 0, s, 0);
    assert(skip_ws(s, s.len() as int) == s.len());
}

/// Round trip, compact form: parsing the compact serialization of any
/// well-formed value whose numbers are all finite gives back exactly that
/// value.
pub proof fn lemma_round_trip_compact(v: SpecValue)
    requires
        wf(v),
        all_finite(v),
    ensures
        spec_parse(ser_compact(v)) == Some(v),
{
    let s = ser_compact(v);
    assert forall|k: int| 0 <= k < s.len() implies s[0 + k] == #[trigger] s[k] by {}
    lemma_parse_ser_at(v, s, 0);
    assert(skip_ws(s, s.len() as int) == s.len());
}

} // verus!
