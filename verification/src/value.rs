//! The JSON value model: a tagged union over null, booleans, numbers,
//! strings, arrays and objects, with constructors, type-guarded mutation and
//! read accessors.
//!
//! Numbers carry their token text (see `numtok`); not-a-number and infinite
//! values are representable but refused by the serializer. Objects keep their
//! pairs in insertion order, with unique keys; inserting an existing key
//! overwrites its value in place.

use vstd::prelude::*;

use crate::numtok::is_number_token;
use crate::numtok::lemma_int_token_valid;
use crate::numtok::push_int_token;
use crate::numtok::spec_int_token;

verus! {

/// The mathematical model of a number value.
#[verifier::ext_equal]
pub enum SpecNumber {
    /// A valid JSON number token, kept as matched or rendered.
    Finite(Seq<char>),
    /// Not a number: representable, never serializable.
    Nan,
    /// Positive (`false`) or negative (`true`) infinity.
    Inf(bool),
}

/// The mathematical model of a JSON value.
#[verifier::ext_equal]
pub enum SpecValue {
    Null,
    Bool(bool),
    Num(SpecNumber),
    Str(Seq<char>),
    Arr(Seq<SpecValue>),
    Obj(Seq<(Seq<char>, SpecValue)>),
}

/// A number value, as stored: its token text, or a non-finite marker.
#[derive(Debug, PartialEq)]
pub enum JsonNumber {
    /// The token text of a finite number.
    Finite(String),
    /// Not a number.
    Nan,
    /// Infinity; `true` means negative.
    Inf(bool),
}

/// A JSON value: the closed tagged union over the six JSON kinds.
#[derive(Debug, PartialEq)]
pub enum JsonValue {
    Null,
    Bool(bool),
    Num(JsonNumber),
    Str(String),
    Arr(Vec<JsonValue>),
    Obj(Vec<(String, JsonValue)>),
}

/// A document: one owned root value.
#[derive(Debug, PartialEq)]
pub struct Json {
    pub value: JsonValue,
}

/// Mutation against a value of the wrong variant.
#[derive(PartialEq, Eq, Structural, Clone, Copy, Debug)]
pub enum JsonError {
    TypeMismatch,
}

/// The model of a stored number.
pub open spec fn view_num(n: JsonNumber) -> SpecNumber {
    match n {
        JsonNumber::Finite(t) => SpecNumber::Finite(t@),
        JsonNumber::Nan => SpecNumber::Nan,
        JsonNumber::Inf(neg) => SpecNumber::Inf(neg),
    }
}

/// The model of a stored value.
pub open spec fn view_val(v: JsonValue) -> SpecValue
    decreases v,
{
    match v {
        JsonValue::Null => SpecValue::Null,
        JsonValue::Bool(b) => SpecValue::Bool(b),
        JsonValue::Num(n) => SpecValue::Num(view_num(n)),
        JsonValue::Str(s) => SpecValue::Str(s@),
        JsonValue::Arr(a) => SpecValue::Arr(view_arr(a@)),
        JsonValue::Obj(p) => SpecValue::Obj(view_pairs(p@)),
    }
}

/// The models of an array's elements, in order.
pub open spec fn view_arr(a: Seq<JsonValue>) -> Seq<SpecValue>
    decreases a,
{
    if a.len() == 0 {
        Seq::empty()
    } else {
        seq![view_val(a[0])] + view_arr(a.drop_first())
    }
}

/// The models of an object's pairs, in order.
pub open spec fn view_pairs(p: Seq<(String, JsonValue)>) -> Seq<(Seq<char>, SpecValue)>
    decreases p,
{
    if p.len() == 0 {
        Seq::empty()
    } else {
        seq![(p[0].0@, view_val(p[0].1))] + view_pairs(p.drop_first())
    }
}

pub broadcast proof fn lemma_view_arr_len(a: Seq<JsonValue>)
    ensures
        (#[trigger] view_arr(a)).len() == a.len(),
    decreases a,
{
    if a.len() > 0 {
        lemma_view_arr_len(a.drop_first());
    }
}

pub broadcast proof fn lemma_view_arr_index(a: Seq<JsonValue>, i: int)
    requires
        0 <= i < a.len(),
    ensures
        #[trigger] view_arr(a)[i] == view_val(a[i]),
    decreases a,
{
    lemma_view_arr_len(a);
    if i > 0 {
        lemma_view_arr_index(a.drop_first(), i - 1);
    }
}

pub broadcast proof fn lemma_view_pairs_len(p: Seq<(String, JsonValue)>)
    ensures
        (#[trigger] view_pairs(p)).len() == p.len(),
    decreases p,
{
    if p.len() > 0 {
        lemma_view_pairs_len(p.drop_first());
    }
}

pub broadcast proof fn lemma_view_pairs_index(p: Seq<(String, JsonValue)>, i: int)
    requires
        0 <= i < p.len(),
    ensures
        #[trigger] view_pairs(p)[i] == (p[i].0@, view_val(p[i].1)),
    decreases p,
{
    lemma_view_pairs_len(p);
    if i > 0 {
        lemma_view_pairs_index(p.drop_first(), i - 1);
    }
}

impl View for JsonNumber {
    type V = SpecNumber;

    open spec fn view(&self) -> SpecNumber {
        view_num(*self)
    }
}

impl View for JsonValue {
    type V = SpecValue;

    open spec fn view(&self) -> SpecValue {
        view_val(*self)
    }
}

impl View for Json {
    type V = SpecValue;

    open spec fn view(&self) -> SpecValue {
        view_val(self.value)
    }
}

/// A finite number, or one with no JSON literal.
pub open spec fn num_finite(n: SpecNumber) -> bool {
    n is Finite
}

/// Well-formed number: finite tokens match the number grammar.
pub open spec fn num_wf(n: SpecNumber) -> bool {
    match n {
        SpecNumber::Finite(t) => is_number_token(t),
        _ => true,
    }
}

/// Well-formed value: every number token matches the number grammar, and the
/// keys of every object are unique.
pub open spec fn wf(v: SpecValue) -> bool
    decreases v, 0int,
{
    match v {
        SpecValue::Null => true,
        SpecValue::Bool(_) => true,
        SpecValue::Num(n) => num_wf(n),
        SpecValue::Str(_) => true,
        SpecValue::Arr(a) => wf_arr(a, 0),
        SpecValue::Obj(p) => wf_obj(p, 0),
    }
}

/// Every element of `a` from index `k` on is well-formed.
pub open spec fn wf_arr(a: Seq<SpecValue>, k: int) -> bool
    decreases a, a.len() - k,
{
    if !(0 <= k < a.len()) {
        true
    } else {
        wf(a[k]) && wf_arr(a, k + 1)
    }
}

/// No pair of `p` from index `k` on has the key `key`.
pub open spec fn key_absent(p: Seq<(Seq<char>, SpecValue)>, k: int, key: Seq<char>) -> bool
    decreases p.len() - k,
{
    if !(0 <= k < p.len()) {
        true
    } else {
        p[k].0 != key && key_absent(p, k + 1, key)
    }
}

/// Every member of `p` from index `k` on has a well-formed value, and its key
/// returns nowhere later.
pub open spec fn wf_obj(p: Seq<(Seq<char>, SpecValue)>, k: int) -> bool
    decreases p, p.len() - k,
{
    if !(0 <= k < p.len()) {
        true
    } else {
        wf(p[k].1) && key_absent(p, k + 1, p[k].0) && wf_obj(p, k + 1)
    }
}

/// A character sequence without a space character.
pub open spec fn space_free(s: Seq<char>) -> bool {
    forall|k: int| 0 <= k < s.len() ==> (#[trigger] s[k]) != ' '
}

/// No string payload or object key in the tree contains a space character.
pub open spec fn strings_space_free(v: SpecValue) -> bool
    decreases v, 0int,
{
    match v {
        SpecValue::Str(s) => space_free(s),
        SpecValue::Arr(a) => ssf_arr(a, 0),
        SpecValue::Obj(p) => ssf_obj(p, 0),
        _ => true,
    }
}

/// The elements of `a` from index `k` on are free of space characters.
pub open spec fn ssf_arr(a: Seq<SpecValue>, k: int) -> bool
    decreases a, a.len() - k,
{
    if !(0 <= k < a.len()) {
        true
    } else {
        strings_space_free(a[k]) && ssf_arr(a, k + 1)
    }
}

/// The keys and member values of `p` from index `k` on are free of space
/// characters.
pub open spec fn ssf_obj(p: Seq<(Seq<char>, SpecValue)>, k: int) -> bool
    decreases p, p.len() - k,
{
    if !(0 <= k < p.len()) {
        true
    } else {
        space_free(p[k].0) && strings_space_free(p[k].1) && ssf_obj(p, k + 1)
    }
}

/// Every number in the tree is finite, so the tree has a serialization.
pub open spec fn all_finite(v: SpecValue) -> bool
    decreases v, 0int,
{
    match v {
        SpecValue::Num(n) => num_finite(n),
        SpecValue::Arr(a) => arr_all_finite(a, 0),
        SpecValue::Obj(p) => obj_all_finite(p, 0),
        _ => true,
    }
}

/// Every element of `a` from index `k` on holds only finite numbers.
pub open spec fn arr_all_finite(a: Seq<SpecValue>, k: int) -> bool
    decreases a, a.len() - k,
{
    if !(0 <= k < a.len()) {
        true
    } else {
        all_finite(a[k]) && arr_all_finite(a, k + 1)
    }
}

/// Every member value of `p` from index `k` on holds only finite numbers.
pub open spec fn obj_all_finite(p: Seq<(Seq<char>, SpecValue)>, k: int) -> bool
    decreases p, p.len() - k,
{
    if !(0 <= k < p.len()) {
        true
    } else {
        all_finite(p[k].1) && obj_all_finite(p, k + 1)
    }
}

/// Insertion into an object's pair sequence: overwrites the value at the
/// first occurrence of `k` in place, or appends a new pair at the end.
pub open spec fn obj_insert(
    p: Seq<(Seq<char>, SpecValue)>,
    k: Seq<char>,
    v: SpecValue,
) -> Seq<(Seq<char>, SpecValue)>
    decreases p.len(),
{
    if p.len() == 0 {
        seq![(k, v)]
    } else if p[0].0 == k {
        seq![(k, v)] + p.drop_first()
    } else {
        seq![p[0]] + obj_insert(p.drop_first(), k, v)
    }
}

/// Lookup in an object's pair sequence: the value at the first occurrence of
/// `k`, if any.
pub open spec fn obj_lookup(p: Seq<(Seq<char>, SpecValue)>, k: Seq<char>) -> Option<SpecValue>
    decreases p.len(),
{
    if p.len() == 0 {
        None
    } else if p[0].0 == k {
        Some(p[0].1)
    } else {
        obj_lookup(p.drop_first(), k)
    }
}

impl Json {
    /// An empty object.
    pub fn new_object() -> (r: Json)
        ensures
            r@ == SpecValue::Obj(Seq::<(Seq<char>, SpecValue)>::empty()),
            wf(r@),
            all_finite(r@),
    {
        Json { value: JsonValue::Obj(Vec::new()) }
    }

    /// An empty array.
    pub fn new_array() -> (r: Json)
        ensures
            r@ == SpecValue::Arr(Seq::<SpecValue>::empty()),
            wf(r@),
            all_finite(r@),
    {
        Json { value: JsonValue::Arr(Vec::new()) }
    }

    /// The null value.
    pub fn null() -> (r: Json)
        ensures
            r@ == SpecValue::Null,
            wf(r@),
            all_finite(r@),
    {
        Json { value: JsonValue::Null }
    }

    /// A boolean value.
    pub fn boolean(b: bool) -> (r: Json)
        ensures
            r@ == SpecValue::Bool(b),
            wf(r@),
            all_finite(r@),
    {
        Json { value: JsonValue::Bool(b) }
    }

    /// An integer number value, carrying its decimal token.
    pub fn number(n: i64) -> (r: Json)
        ensures
            r@ == SpecValue::Num(SpecNumber::Finite(spec_int_token(n as int))),
            wf(r@),
            all_finite(r@),
    {
        let mut tok: Vec<char> = Vec::new();
        push_int_token(n, &mut tok);
        let t = crate::text::chars_to_string(&tok);
        proof {
            lemma_int_token_valid(n as int);
        }
        Json { value: JsonValue::Num(JsonNumber::Finite(t)) }
    }

    /// A string value.
    pub fn string(s: &str) -> (r: Json)
        ensures
            r@ == SpecValue::Str(s@),
            wf(r@),
            all_finite(r@),
    {
        Json { value: JsonValue::Str(s.to_owned()) }
    }

    /// Inserts `key -> value` when `self` is an object, overwriting the pair
    /// holding `key` in place if there is one; fails with `TypeMismatch` on
    /// every other variant, leaving `self` unchanged.
    #[verifier::loop_isolation(false)]
    pub fn add_to_object(&mut self, key: &str, value: Json) -> (r: Result<(), JsonError>)
        ensures
            match old(self)@ {
                SpecValue::Obj(p) => {
                    &&& r == Ok::<(), JsonError>(())
                    &&& final(self)@ == SpecValue::Obj(obj_insert(p, key@, value@))
                },
                _ => {
                    &&& r == Err::<(), JsonError>(JsonError::TypeMismatch)
                    &&& final(self)@ == old(self)@
                },
            },
            wf(old(self)@) && wf(value@) ==> wf(final(self)@),
            all_finite(old(self)@) && all_finite(value@) ==> all_finite(final(self)@),
    {
        match &mut self.value {
            JsonValue::Obj(pairs) => {
                let ghost p0v = view_pairs(pairs@);
                let ghost vv = value@;
                pairs_insert(pairs, key, value.value);
                proof {
                    if wf(old(self)@) && wf(vv) {
                        lemma_obj_insert_wf(p0v, key@, vv);
                    }
                    if all_finite(old(self)@) && all_finite(vv) {
                        lemma_obj_insert_finite(p0v, key@, vv);
                    }
                }
                Ok(())
            },
            _ => Err(JsonError::TypeMismatch),
        }
    }

    /// Appends `value` when `self` is an array, preserving the order of the
    /// elements already there; fails with `TypeMismatch` on every other
    /// variant, leaving `self` unchanged.
    pub fn add_to_array(&mut self, value: Json) -> (r: Result<(), JsonError>)
        ensures
            match old(self)@ {
                SpecValue::Arr(a) => {
                    &&& r == Ok::<(), JsonError>(())
                    &&& final(self)@ == SpecValue::Arr(a.push(value@))
                },
                _ => {
                    &&& r == Err::<(), JsonError>(JsonError::TypeMismatch)
                    &&& final(self)@ == old(self)@
                },
            },
            wf(old(self)@) && wf(value@) ==> wf(final(self)@),
            all_finite(old(self)@) && all_finite(value@) ==> all_finite(final(self)@),
    {
        match &mut self.value {
            JsonValue::Arr(elems) => {
                let ghost a0 = elems@;
                let v = value.value;
                elems.push(v);
                proof {
                    lemma_view_arr_len(a0);
                    lemma_view_arr_len(elems@);
                    assert forall|i: int| 0 <= i < elems@.len() implies
                        view_arr(elems@)[i] == view_arr(a0).push(view_val(v))[i] by {
                        lemma_view_arr_index(elems@, i);
                        if i < a0.len() {
                            lemma_view_arr_index(a0, i);
                        }
                    }
                    assert(view_arr(elems@) =~= view_arr(a0).push(view_val(v)));
                    if wf(old(self)@) && wf(view_val(v)) {
                        lemma_wf_arr_push(view_arr(a0), view_val(v), 0);
                    }
                    if all_finite(old(self)@) && all_finite(view_val(v)) {
                        lemma_finite_arr_push(view_arr(a0), view_val(v), 0);
                    }
                }
                Ok(())
            },
            _ => Err(JsonError::TypeMismatch),
        }
    }

    /// The value under `key`, when `self` is an object that holds the key;
    /// `None` on any other variant or an absent key. Never mutates.
    #[verifier::loop_isolation(false)]
    pub fn get_from_object(&self, key: &str) -> (r: Option<&JsonValue>)
        ensures
            match self@ {
                SpecValue::Obj(p) => match r {
                    Some(v) => obj_lookup(p, key@) == Some(v@),
                    None => obj_lookup(p, key@) is None,
                },
                _ => r is None,
            },
    {
        match &self.value {
            JsonValue::Obj(pairs) => {
                let ghost p = view_pairs(pairs@);
                proof {
                    lemma_view_pairs_len(pairs@);
                    assert(p.skip(0) =~= p);
                }
                let mut idx: usize = 0;
                loop
                    invariant
                        idx <= pairs@.len(),
                        p == view_pairs(pairs@),
                        p.len() == pairs@.len(),
                        obj_lookup(p, key@) == obj_lookup(p.skip(idx as int), key@),
                    decreases pairs@.len() - idx,
                {
                    if idx >= pairs.len() {
                        proof {
                            assert(p.skip(idx as int) =~= Seq::<(Seq<char>, SpecValue)>::empty());
                        }
                        return None;
                    }
                    proof {
                        lemma_view_pairs_index(pairs@, idx as int);
                        assert(p.skip(idx as int)[0] == p[idx as int]);
                        assert(p.skip(idx as int).drop_first() =~= p.skip(idx as int + 1));
                    }
                    if string_eq_str(&pairs[idx].0, key) {
                        return Some(&pairs[idx].1);
                    }
                    idx = idx + 1;
                }
            },
            _ => None,
        }
    }

    /// The element at `index`, when `self` is an array long enough; `None` on
    /// any other variant or an index out of bounds. Never mutates.
    pub fn get_from_array(&self, index: usize) -> (r: Option<&JsonValue>)
        ensures
            match self@ {
                SpecValue::Arr(a) => match r {
                    Some(v) => index < a.len() && a[index as int] == v@,
                    None => index >= a.len(),
                },
                _ => r is None,
            },
    {
        match &self.value {
            JsonValue::Arr(elems) => {
                proof {
                    lemma_view_arr_len(elems@);
                }
                if index < elems.len() {
                    proof {
                        lemma_view_arr_index(elems@, index as int);
                    }
                    Some(&elems[index])
                } else {
                    None
                }
            },
            _ => None,
        }
    }
}

/// Inserts `key -> v` into an object's pair vector: overwrites the value at
/// the first pair holding `key`, or appends a new pair.
#[verifier::loop_isolation(false)]
pub fn pairs_insert(pairs: &mut Vec<(String, JsonValue)>, key: &str, v: JsonValue)
    ensures
        view_pairs(final(pairs)@) == obj_insert(view_pairs(old(pairs)@), key@, v@),
{
    let ghost p0 = pairs@;
    let ghost vp = view_pairs(p0);
    proof {
        lemma_view_pairs_len(p0);
    }
    let mut idx: usize = 0;
    loop
        invariant
            idx <= pairs@.len(),
            pairs@ == p0,
            forall|j: int| 0 <= j < idx ==> (#[trigger] vp[j]).0 != key@,
        decreases pairs@.len() - idx,
    {
        if idx >= pairs.len() {
            break;
        }
        proof {
            lemma_view_pairs_index(p0, idx as int);
        }
        if string_eq_str(&pairs[idx].0, key) {
            pairs.set(idx, (key.to_owned(), v));
            proof {
                lemma_obj_insert_found(vp, key@, view_val(v), idx as int);
                lemma_view_pairs_len(pairs@);
                assert forall|i: int| 0 <= i < pairs@.len() implies view_pairs(pairs@)[i]
                    == vp.update(idx as int, (key@, view_val(v)))[i] by {
                    lemma_view_pairs_index(pairs@, i);
                    if i != idx {
                        lemma_view_pairs_index(p0, i);
                    }
                }
                assert(view_pairs(pairs@) =~= obj_insert(vp, key@, view_val(v)));
            }
            return ;
        }
        idx = idx + 1;
    }
    pairs.push((key.to_owned(), v));
    proof {
        lemma_obj_insert_absent(vp, key@, view_val(v));
        lemma_view_pairs_len(pairs@);
        assert forall|i: int| 0 <= i < pairs@.len() implies view_pairs(pairs@)[i] == vp.push(
            (key@, view_val(v)),
        )[i] by {
            lemma_view_pairs_index(pairs@, i);
            if i < p0.len() {
                lemma_view_pairs_index(p0, i);
            }
        }
        assert(view_pairs(pairs@) =~= obj_insert(vp, key@, view_val(v)));
    }
}

/// Appending an element appends its model.
pub proof fn lemma_view_arr_push(a: Seq<JsonValue>, x: JsonValue)
    ensures
        view_arr(a.push(x)) == view_arr(a).push(view_val(x)),
{
    lemma_view_arr_len(a);
    lemma_view_arr_len(a.push(x));
    assert forall|i: int| 0 <= i < a.push(x).len() implies view_arr(a.push(x))[i] == view_arr(
        a,
    ).push(view_val(x))[i] by {
        lemma_view_arr_index(a.push(x), i);
        if i < a.len() {
            lemma_view_arr_index(a, i);
        }
    }
    assert(view_arr(a.push(x)) =~= view_arr(a).push(view_val(x)));
}

/// Compares a stored key with a borrowed one.
fn string_eq_str(a: &String, b: &str) -> (r: bool)
    ensures
        r == (a@ == b@),
{
    let bs = b.to_owned();
    a.eq(&bs)
}

/// Appending a well-formed element keeps an array well-formed.
pub proof fn lemma_wf_arr_push(a: Seq<SpecValue>, x: SpecValue, k: int)
    requires
        0 <= k <= a.len(),
        wf_arr(a, k),
        wf(x),
    ensures
        wf_arr(a.push(x), k),
    decreases a.len() - k,
{
    if k < a.len() {
        assert(a.push(x)[k] == a[k]);
        lemma_wf_arr_push(a, x, k + 1);
    } else {
        assert(a.push(x)[k] == x);
        assert(wf_arr(a.push(x), k + 1));
    }
}

/// Appending a finite element keeps an array finite.
pub proof fn lemma_finite_arr_push(a: Seq<SpecValue>, x: SpecValue, k: int)
    requires
        0 <= k <= a.len(),
        arr_all_finite(a, k),
        all_finite(x),
    ensures
        arr_all_finite(a.push(x), k),
    decreases a.len() - k,
{
    if k < a.len() {
        assert(a.push(x)[k] == a[k]);
        lemma_finite_arr_push(a, x, k + 1);
    } else {
        assert(a.push(x)[k] == x);
        assert(arr_all_finite(a.push(x), k + 1));
    }
}

/// The first position at or after `k` holding `key`, or the length.
pub proof fn find_first_key(p: Seq<(Seq<char>, SpecValue)>, key: Seq<char>, k: int) -> (r: int)
    requires
        0 <= k <= p.len(),
    ensures
        k <= r <= p.len(),
        r < p.len() ==> p[r].0 == key,
        forall|j: int| k <= j < r ==> (#[trigger] p[j]).0 != key,
    decreases p.len() - k,
{
    if k < p.len() {
        if p[k].0 == key {
            k
        } else {
            find_first_key(p, key, k + 1)
        }
    } else {
        k
    }
}

/// A key absent from `k` on stays absent after a pair with another key is
/// appended.
proof fn lemma_key_absent_push(
    p: Seq<(Seq<char>, SpecValue)>,
    k: int,
    kk: Seq<char>,
    key: Seq<char>,
    v: SpecValue,
)
    requires
        0 <= k,
        key_absent(p, k, kk),
        kk != key,
    ensures
        key_absent(p.push((key, v)), k, kk),
    decreases p.len() + 1 - k,
{
    if k < p.len() {
        assert(p.push((key, v))[k] == p[k]);
        lemma_key_absent_push(p, k + 1, kk, key, v);
    } else if k == p.len() {
        assert(p.push((key, v))[k] == (key, v));
        assert(key_absent(p.push((key, v)), k + 1, kk));
    }
}

/// Key absence depends on the keys alone.
proof fn lemma_key_absent_same_keys(
    p: Seq<(Seq<char>, SpecValue)>,
    q: Seq<(Seq<char>, SpecValue)>,
    k: int,
    kk: Seq<char>,
)
    requires
        p.len() == q.len(),
        forall|j: int| 0 <= j < p.len() ==> (#[trigger] p[j]).0 == q[j].0,
        key_absent(p, k, kk),
        0 <= k,
    ensures
        key_absent(q, k, kk),
    decreases p.len() - k,
{
    if k < p.len() {
        lemma_key_absent_same_keys(p, q, k + 1, kk);
    }
}

/// Appending a well-formed pair with a fresh key keeps an object well-formed.
proof fn lemma_wf_obj_push(
    p: Seq<(Seq<char>, SpecValue)>,
    key: Seq<char>,
    v: SpecValue,
    k: int,
)
    requires
        0 <= k <= p.len(),
        wf_obj(p, k),
        wf(v),
        forall|j: int| 0 <= j < p.len() ==> (#[trigger] p[j]).0 != key,
    ensures
        wf_obj(p.push((key, v)), k),
    decreases p.len() - k,
{
    if k < p.len() {
        assert(p.push((key, v))[k] == p[k]);
        lemma_key_absent_push(p, k + 1, p[k].0, key, v);
        lemma_wf_obj_push(p, key, v, k + 1);
    } else {
        assert(p.push((key, v))[k] == (key, v));
        assert(key_absent(p.push((key, v)), k + 1, key));
        assert(wf_obj(p.push((key, v)), k + 1));
    }
}

/// Overwriting the value at `idx` with a well-formed one, keeping the key,
/// keeps an object well-formed.
proof fn lemma_wf_obj_update(
    p: Seq<(Seq<char>, SpecValue)>,
    idx: int,
    v: SpecValue,
    k: int,
)
    requires
        0 <= k <= p.len(),
        0 <= idx < p.len(),
        wf_obj(p, k),
        wf(v),
    ensures
        wf_obj(p.update(idx, (p[idx].0, v)), k),
    decreases p.len() - k,
{
    let q = p.update(idx, (p[idx].0, v));
    if k < p.len() {
        lemma_key_absent_same_keys(p, q, k + 1, p[k].0);
        lemma_wf_obj_update(p, idx, v, k + 1);
    }
}

/// Inserting a well-formed value keeps an object well-formed.
pub proof fn lemma_obj_insert_wf(p: Seq<(Seq<char>, SpecValue)>, key: Seq<char>, v: SpecValue)
    requires
        wf_obj(p, 0),
        wf(v),
    ensures
        wf_obj(obj_insert(p, key, v), 0),
{
    let idx = find_first_key(p, key, 0);
    if idx < p.len() {
        lemma_obj_insert_found(p, key, v, idx);
        assert(p.update(idx, (key, v)) == p.update(idx, (p[idx].0, v)));
        lemma_wf_obj_update(p, idx, v, 0);
    } else {
        lemma_obj_insert_absent(p, key, v);
        lemma_wf_obj_push(p, key, v, 0);
    }
}

/// Whether every member value from `k` on is finite depends on the values
/// alone; inserting a finite value keeps an object finite.
proof fn lemma_finite_obj_push(
    p: Seq<(Seq<char>, SpecValue)>,
    key: Seq<char>,
    v: SpecValue,
    k: int,
)
    requires
        0 <= k <= p.len(),
        obj_all_finite(p, k),
        all_finite(v),
    ensures
        obj_all_finite(p.push((key, v)), k),
    decreases p.len() - k,
{
    if k < p.len() {
        assert(p.push((key, v))[k] == p[k]);
        lemma_finite_obj_push(p, key, v, k + 1);
    } else {
        assert(p.push((key, v))[k] == (key, v));
        assert(obj_all_finite(p.push((key, v)), k + 1));
    }
}

proof fn lemma_finite_obj_update(
    p: Seq<(Seq<char>, SpecValue)>,
    idx: int,
    pair: (Seq<char>, SpecValue),
    k: int,
)
    requires
        0 <= k <= p.len(),
        0 <= idx < p.len(),
        obj_all_finite(p, k),
        all_finite(pair.1),
    ensures
        obj_all_finite(p.update(idx, pair), k),
    decreases p.len() - k,
{
    if k < p.len() {
        lemma_finite_obj_update(p, idx, pair, k + 1);
    }
}

/// Inserting a finite value keeps an object finite.
pub proof fn lemma_obj_insert_finite(p: Seq<(Seq<char>, SpecValue)>, key: Seq<char>, v: SpecValue)
    requires
        obj_all_finite(p, 0),
        all_finite(v),
    ensures
        obj_all_finite(obj_insert(p, key, v), 0),
{
    let idx = find_first_key(p, key, 0);
    if idx < p.len() {
        lemma_obj_insert_found(p, key, v, idx);
        lemma_finite_obj_update(p, idx, (key, v), 0);
    } else {
        lemma_obj_insert_absent(p, key, v);
        lemma_finite_obj_push(p, key, v, 0);
    }
}

/// Inserting an absent key appends the pair.
pub proof fn lemma_obj_insert_absent(p: Seq<(Seq<char>, SpecValue)>, k: Seq<char>, v: SpecValue)
    requires
        forall|i: int| 0 <= i < p.len() ==> (#[trigger] p[i]).0 != k,
    ensures
        obj_insert(p, k, v) == p.push((k, v)),
    decreases p.len(),
{
    if p.len() == 0 {
        assert(obj_insert(p, k, v) =~= p.push((k, v)));
    } else {
        assert(forall|i: int| 0 <= i < p.drop_first().len()
            ==> (#[trigger] p.drop_first()[i]).0 != k);
        lemma_obj_insert_absent(p.drop_first(), k, v);
        assert(obj_insert(p, k, v) =~= p.push((k, v)));
    }
}

/// Inserting a key found at `idx` (and nowhere earlier) updates that pair.
pub proof fn lemma_obj_insert_found(
    p: Seq<(Seq<char>, SpecValue)>,
    k: Seq<char>,
    v: SpecValue,
    idx: int,
)
    requires
        0 <= idx < p.len(),
        p[idx].0 == k,
        forall|j: int| 0 <= j < idx ==> (#[trigger] p[j]).0 != k,
    ensures
        obj_insert(p, k, v) == p.update(idx, (k, v)),
    decreases p.len(),
{
    if idx == 0 {
        assert(obj_insert(p, k, v) =~= p.update(idx, (k, v)));
    } else {
        lemma_obj_insert_found(p.drop_first(), k, v, idx - 1);
        assert(obj_insert(p, k, v) =~= p.update(idx, (k, v)));
    }
}

} // verus!
