//! The JSON model that parameters, rule values and request contexts use.
//!
//! Objects are association lists kept in insertion order; lookups take the
//! first entry with a matching key. Numbers carry their exact integer value
//! when they have one, together with the IEEE-754 bit pattern of the
//! closest binary64 value, which is what ordering under the `Float` field
//! type reads; both fields are filled in by whoever builds the value at the
//! process boundary.

use vstd::prelude::*;
use crate::error::ExperimentError;
use crate::strings::str_eq;

verus! {

/// An executable JSON value.
pub enum JsonValue {
    Null,
    Bool(bool),
    /// A JSON number: `int_val` is its exact value when it is an integer
    /// that fits `i64` (and `None` otherwise); `bits` is the IEEE-754 bit
    /// pattern of its closest binary64 value.
    Num { int_val: Option<i64>, bits: u64 },
    Str(String),
    Arr(Vec<JsonValue>),
    Obj(Vec<(String, JsonValue)>),
}

/// The mathematical model of a JSON value.
pub enum JsonSpec {
    Null,
    Bool(bool),
    Num { int_val: Option<i64>, bits: u64 },
    Str(Seq<char>),
    Arr(Seq<JsonSpec>),
    Obj(Seq<(Seq<char>, JsonSpec)>),
}

/// The model of an executable JSON value.
pub open spec fn json_view(v: JsonValue) -> JsonSpec
    decreases v,
{
    match v {
        JsonValue::Null => JsonSpec::Null,
        JsonValue::Bool(b) => JsonSpec::Bool(b),
        JsonValue::Num { int_val, bits } => JsonSpec::Num { int_val, bits },
        JsonValue::Str(s) => JsonSpec::Str(s@),
        JsonValue::Arr(elems) => JsonSpec::Arr(
            Seq::new(
                elems@.len(),
                |i: int|
                    if 0 <= i < elems@.len() {
                        json_view(elems@[i])
                    } else {
                        JsonSpec::Null
                    },
            ),
        ),
        JsonValue::Obj(entries) => JsonSpec::Obj(
            Seq::new(
                entries@.len(),
                |i: int|
                    if 0 <= i < entries@.len() {
                        (entries@[i].0@, json_view(entries@[i].1))
                    } else {
                        (Seq::empty(), JsonSpec::Null)
                    },
            ),
        ),
    }
}

/// The model of a sequence of JSON values.
pub open spec fn arr_view(es: Seq<JsonValue>) -> Seq<JsonSpec> {
    Seq::new(es.len(), |i: int| json_view(es[i]))
}

/// The model of an object's entry list.
pub open spec fn entries_view(es: Seq<(String, JsonValue)>) -> Seq<(Seq<char>, JsonSpec)> {
    Seq::new(es.len(), |i: int| (es[i].0@, json_view(es[i].1)))
}

/// Unfolds the model of an array value to the model of its elements.
pub broadcast proof fn lemma_json_view_arr(v: Vec<JsonValue>)
    ensures
        #[trigger] json_view(JsonValue::Arr(v)) == JsonSpec::Arr(arr_view(v@)),
{
    let a = json_view(JsonValue::Arr(v));
    assert(a->Arr_0 =~= arr_view(v@));
}

/// Unfolds the model of an object value to the model of its entries.
pub broadcast proof fn lemma_json_view_obj(v: Vec<(String, JsonValue)>)
    ensures
        #[trigger] json_view(JsonValue::Obj(v)) == JsonSpec::Obj(entries_view(v@)),
{
    let a = json_view(JsonValue::Obj(v));
    assert(a->Obj_0 =~= entries_view(v@));
}

/// Index of the first entry with key `k`, or `-1` when no entry has it.
pub open spec fn obj_index_of(s: Seq<(Seq<char>, JsonSpec)>, k: Seq<char>) -> int
    decreases s.len(),
{
    if s.len() == 0 {
        -1
    } else if s[0].0 == k {
        0
    } else {
        let r = obj_index_of(s.drop_first(), k);
        if r < 0 {
            -1
        } else {
            r + 1
        }
    }
}

/// Whether some entry carries key `k`.
pub open spec fn obj_has_key(s: Seq<(Seq<char>, JsonSpec)>, k: Seq<char>) -> bool {
    obj_index_of(s, k) >= 0
}

/// The value of the first entry with key `k`, if any.
pub open spec fn obj_get(s: Seq<(Seq<char>, JsonSpec)>, k: Seq<char>) -> Option<JsonSpec> {
    if obj_has_key(s, k) {
        Some(s[obj_index_of(s, k)].1)
    } else {
        None
    }
}

/// No two entries of the object share a key.
pub open spec fn keys_unique(s: Seq<(Seq<char>, JsonSpec)>) -> bool {
    forall|i: int, j: int| 0 <= i < j < s.len() ==> s[i].0 != s[j].0
}

/// `obj_index_of` finds the first matching entry and nothing else.
pub proof fn lemma_obj_index_of(s: Seq<(Seq<char>, JsonSpec)>, k: Seq<char>)
    ensures
        obj_index_of(s, k) == -1 || (0 <= obj_index_of(s, k) < s.len()),
        obj_index_of(s, k) >= 0 ==> s[obj_index_of(s, k)].0 == k,
        forall|j: int|
            0 <= j < s.len() && (obj_index_of(s, k) == -1 || j < obj_index_of(s, k)) ==> s[j].0
                != k,
    decreases s.len(),
{
    if s.len() > 0 && s[0].0 != k {
        lemma_obj_index_of(s.drop_first(), k);
        assert forall|j: int|
            0 <= j < s.len() && (obj_index_of(s, k) == -1 || j < obj_index_of(s, k)) implies s[j].0
            != k by {
            if j > 0 {
                assert(s.drop_first()[j - 1] == s[j]);
            }
        }
    }
}

/// The number of entries of an object value, and zero for anything else.
pub open spec fn obj_len(s: JsonSpec) -> int {
    match s {
        JsonSpec::Obj(es) => es.len() as int,
        _ => 0,
    }
}

/// Deep merge of the entries of object `s`, from entry `i` on, into the
/// accumulator `t`. For each source entry: a key absent from `t` is
/// appended; a key present in `t` with objects on both sides recurses;
/// any other collision keeps what `t` already holds.
pub open spec fn merge_entries_from(
    t: Seq<(Seq<char>, JsonSpec)>,
    s: JsonSpec,
    i: int,
) -> Seq<(Seq<char>, JsonSpec)>
    decreases s, obj_len(s) - i,
{
    match s {
        JsonSpec::Obj(es) => {
            if i < 0 || i >= es.len() {
                t
            } else {
                let e = es[i];
                let j = obj_index_of(t, e.0);
                let t2 = if j < 0 {
                    t.push(e)
                } else if t[j].1 is Obj && e.1 is Obj {
                    t.update(j, (t[j].0, merge_value(t[j].1, e.1)))
                } else {
                    t
                };
                merge_entries_from(t2, s, i + 1)
            }
        },
        _ => t,
    }
}

/// Deep merge of two JSON values: objects merge entrywise with the target
/// winning every conflict at a leaf; any other target value stands as it is.
pub open spec fn merge_value(t: JsonSpec, s: JsonSpec) -> JsonSpec
    decreases s, obj_len(s) + 1,
{
    if t is Obj && s is Obj {
        JsonSpec::Obj(merge_entries_from(t->Obj_0, s, 0))
    } else {
        t
    }
}

/// Deep merge of source entries `s` into target entries `t`.
pub open spec fn merge_entries(
    t: Seq<(Seq<char>, JsonSpec)>,
    s: Seq<(Seq<char>, JsonSpec)>,
) -> Seq<(Seq<char>, JsonSpec)> {
    merge_entries_from(t, JsonSpec::Obj(s), 0)
}


/// Every key of `s` is absent from `t`.
pub open spec fn keys_not_in(
    s: Seq<(Seq<char>, JsonSpec)>,
    t: Seq<(Seq<char>, JsonSpec)>,
) -> bool {
    forall|j: int| 0 <= j < s.len() ==> !obj_has_key(t, s[j].0)
}

/// If `m` is the first position carrying key `k`, the lookup finds it.
pub proof fn lemma_obj_index_of_is(s: Seq<(Seq<char>, JsonSpec)>, k: Seq<char>, m: int)
    requires
        0 <= m < s.len(),
        s[m].0 == k,
        forall|j: int| 0 <= j < m ==> s[j].0 != k,
    ensures
        obj_index_of(s, k) == m,
    decreases s.len(),
{
    if m > 0 {
        assert(s[0].0 != k);
        assert forall|j: int| 0 <= j < m - 1 implies s.drop_first()[j].0 != k by {
            assert(s.drop_first()[j] == s[j + 1]);
        }
        assert(s.drop_first()[m - 1] == s[m]);
        lemma_obj_index_of_is(s.drop_first(), k, m - 1);
    }
}

/// If no entry carries key `k`, the lookup reports that.
pub proof fn lemma_obj_index_of_none(s: Seq<(Seq<char>, JsonSpec)>, k: Seq<char>)
    requires
        forall|j: int| 0 <= j < s.len() ==> s[j].0 != k,
    ensures
        obj_index_of(s, k) == -1,
{
    lemma_obj_index_of(s, k);
}

/// How appending an entry moves lookups: keys already present keep their
/// index and value; the new key becomes visible at the end; others stay out.
pub proof fn lemma_obj_index_push(
    t: Seq<(Seq<char>, JsonSpec)>,
    e: (Seq<char>, JsonSpec),
    k: Seq<char>,
)
    ensures
        obj_has_key(t, k) ==> obj_index_of(t.push(e), k) == obj_index_of(t, k),
        !obj_has_key(t, k) && e.0 == k ==> obj_index_of(t.push(e), k) == t.len(),
        !obj_has_key(t, k) && e.0 != k ==> obj_index_of(t.push(e), k) == -1,
        obj_get(t.push(e), k) == (if obj_has_key(t, k) {
            obj_get(t, k)
        } else if e.0 == k {
            Some(e.1)
        } else {
            None::<JsonSpec>
        }),
{
    let u = t.push(e);
    lemma_obj_index_of(t, k);
    assert(forall|j: int| 0 <= j < t.len() ==> u[j] == t[j]);
    assert(u[t.len() as int] == e);
    if obj_has_key(t, k) {
        let m = obj_index_of(t, k);
        lemma_obj_index_of_is(u, k, m);
    } else if e.0 == k {
        lemma_obj_index_of_is(u, k, t.len() as int);
    } else {
        lemma_obj_index_of_none(u, k);
    }
}

/// Replacing the value at index `j` while keeping its key leaves every
/// lookup index alone and changes only the value looked up at that key.
pub proof fn lemma_obj_index_update(
    t: Seq<(Seq<char>, JsonSpec)>,
    j: int,
    v: JsonSpec,
    k: Seq<char>,
)
    requires
        0 <= j < t.len(),
    ensures
        obj_index_of(t.update(j, (t[j].0, v)), k) == obj_index_of(t, k),
        obj_get(t.update(j, (t[j].0, v)), k) == (if obj_index_of(t, k) == j {
            Some(v)
        } else {
            obj_get(t, k)
        }),
{
    let u = t.update(j, (t[j].0, v));
    lemma_obj_index_of(t, k);
    assert(forall|i: int| 0 <= i < t.len() && i != j ==> u[i] == t[i]);
    assert(u[j] == (t[j].0, v));
    assert(forall|i: int| 0 <= i < t.len() ==> u[i].0 == t[i].0);
    if obj_has_key(t, k) {
        let m = obj_index_of(t, k);
        lemma_obj_index_of_is(u, k, m);
    } else {
        lemma_obj_index_of_none(u, k);
    }
}

/// The heart of priority dominance: once the accumulator holds a leaf (a
/// non-object value) at key `k`, merging further sources never changes what
/// a lookup of `k` returns. Sources are merged from the highest-priority
/// layer down, so the highest-priority writer of a leaf key wins.
pub proof fn lemma_merge_from_keeps_leaf(
    t: Seq<(Seq<char>, JsonSpec)>,
    s: JsonSpec,
    i: int,
    k: Seq<char>,
)
    requires
        obj_has_key(t, k),
        !(obj_get(t, k).unwrap() is Obj),
    ensures
        obj_has_key(merge_entries_from(t, s, i), k),
        obj_get(merge_entries_from(t, s, i), k) == obj_get(t, k),
    decreases s, obj_len(s) - i,
{
    match s {
        JsonSpec::Obj(es) => {
            if 0 <= i < es.len() {
                let e = es[i];
                let j = obj_index_of(t, e.0);
                lemma_obj_index_of(t, e.0);
                lemma_obj_index_of(t, k);
                if j < 0 {
                    lemma_obj_index_push(t, e, k);
                    lemma_merge_from_keeps_leaf(t.push(e), s, i + 1, k);
                } else if t[j].1 is Obj && e.1 is Obj {
                    let w = merge_value(t[j].1, e.1);
                    lemma_obj_index_update(t, j, w, k);
                    lemma_merge_from_keeps_leaf(t.update(j, (t[j].0, w)), s, i + 1, k);
                } else {
                    lemma_merge_from_keeps_leaf(t, s, i + 1, k);
                }
            }
        },
        _ => {},
    }
}

/// Priority dominance at a merged key: if the accumulator `t` (built from
/// the higher-priority layers) already maps `k` to a non-object value, the
/// merge of any further source `s` returns `t`'s value at `k`.
pub proof fn lemma_merge_first_writer_wins(
    t: Seq<(Seq<char>, JsonSpec)>,
    s: Seq<(Seq<char>, JsonSpec)>,
    k: Seq<char>,
)
    requires
        obj_has_key(t, k),
        !(obj_get(t, k).unwrap() is Obj),
    ensures
        obj_get(merge_entries(t, s), k) == obj_get(t, k),
{
    lemma_merge_from_keeps_leaf(t, JsonSpec::Obj(s), 0, k);
}

/// A key is in a concatenation exactly when it is in one of the parts.
pub proof fn lemma_has_key_concat(
    x: Seq<(Seq<char>, JsonSpec)>,
    y: Seq<(Seq<char>, JsonSpec)>,
    k: Seq<char>,
)
    ensures
        obj_has_key(x + y, k) == (obj_has_key(x, k) || obj_has_key(y, k)),
    decreases x.len(),
{
    if x.len() == 0 {
        assert(x + y =~= y);
    } else {
        assert((x + y)[0] == x[0]);
        assert((x + y).drop_first() =~= x.drop_first() + y);
        lemma_has_key_concat(x.drop_first(), y, k);
    }
}

/// Merging entries whose keys are all new appends them in order.
pub proof fn lemma_merge_disjoint_from(t: Seq<(Seq<char>, JsonSpec)>, s: JsonSpec, i: int)
    requires
        s is Obj,
        0 <= i <= s->Obj_0.len(),
        keys_unique(s->Obj_0),
        forall|j: int| i <= j < s->Obj_0.len() ==> !obj_has_key(t, s->Obj_0[j].0),
    ensures
        merge_entries_from(t, s, i) == t + s->Obj_0.skip(i),
    decreases s, obj_len(s) - i,
{
    let es = s->Obj_0;
    if i == es.len() {
        assert(t + es.skip(i) =~= t);
    } else {
        let e = es[i];
        lemma_obj_index_of(t, e.0);
        assert(obj_index_of(t, e.0) == -1);
        assert forall|j: int| i + 1 <= j < es.len() implies !obj_has_key(t.push(e), es[j].0) by {
            lemma_obj_index_push(t, e, es[j].0);
        }
        lemma_merge_disjoint_from(t.push(e), s, i + 1);
        assert(t.push(e) + es.skip(i + 1) =~= t + es.skip(i));
    }
}

/// Left-biased deep merge of disjoint objects is concatenation.
pub proof fn lemma_merge_disjoint_is_append(
    t: Seq<(Seq<char>, JsonSpec)>,
    s: Seq<(Seq<char>, JsonSpec)>,
)
    requires
        keys_unique(s),
        keys_not_in(s, t),
    ensures
        merge_entries(t, s) == t + s,
{
    lemma_merge_disjoint_from(t, JsonSpec::Obj(s), 0);
    assert(s.skip(0) =~= s);
}

/// Deep merge is associative on objects with pairwise disjoint key sets:
/// the merge then only concatenates, and concatenation associates. With
/// overlapping keys the first-writer-wins rule of
/// [`lemma_merge_first_writer_wins`] settles the order instead.
pub proof fn lemma_merge_assoc_disjoint(
    a: Seq<(Seq<char>, JsonSpec)>,
    b: Seq<(Seq<char>, JsonSpec)>,
    c: Seq<(Seq<char>, JsonSpec)>,
)
    requires
        keys_unique(b),
        keys_unique(c),
        keys_not_in(b, a),
        keys_not_in(c, a),
        keys_not_in(c, b),
    ensures
        merge_entries(a, merge_entries(b, c)) == merge_entries(merge_entries(a, b), c),
{
    lemma_merge_disjoint_is_append(b, c);
    assert(keys_unique(b + c)) by {
        assert forall|i: int, j: int| 0 <= i < j < (b + c).len() implies (b + c)[i].0 != (b
            + c)[j].0 by {
            if i < b.len() && j >= b.len() {
                lemma_obj_index_of(b, c[j - b.len()].0);
            }
        }
    }
    assert(keys_not_in(b + c, a)) by {
        assert forall|j: int| 0 <= j < (b + c).len() implies !obj_has_key(a, (b + c)[j].0) by {
            if j < b.len() {
                assert((b + c)[j] == b[j]);
            } else {
                assert((b + c)[j] == c[j - b.len()]);
            }
        }
    }
    lemma_merge_disjoint_is_append(a, b + c);
    lemma_merge_disjoint_is_append(a, b);
    assert(keys_not_in(c, a + b)) by {
        assert forall|j: int| 0 <= j < c.len() implies !obj_has_key(a + b, c[j].0) by {
            lemma_has_key_concat(a, b, c[j].0);
        }
    }
    lemma_merge_disjoint_is_append(a + b, c);
    assert((a + b) + c =~= a + (b + c));
}

impl JsonValue {
    /// A structural copy: the result models the very same JSON value.
    #[verifier::loop_isolation(false)]
    pub fn deep_copy(&self) -> (r: JsonValue)
        ensures
            json_view(r) == json_view(*self),
        decreases self,
    {
        broadcast use lemma_json_view_arr, lemma_json_view_obj;

        match self {
            JsonValue::Null => JsonValue::Null,
            JsonValue::Bool(b) => JsonValue::Bool(*b),
            JsonValue::Num { int_val, bits } => JsonValue::Num { int_val: *int_val, bits: *bits },
            JsonValue::Str(s) => JsonValue::Str(s.clone()),
            JsonValue::Arr(elems) => {
                let mut out: Vec<JsonValue> = Vec::new();
                let mut i: usize = 0;
                while i < elems.len()
                    invariant
                        i <= elems@.len(),
                        out@.len() == i,
                        forall|j: int| 0 <= j < i ==> json_view(out@[j]) == json_view(elems@[j]),
                    decreases elems@.len() - i,
                {
                    proof {
                        assert(*self == JsonValue::Arr(*elems));
                        assert(decreases_to!(*elems => elems@));
                        assert(decreases_to!(elems@ => elems@[i as int]));
                        assert(decreases_to!(*self => elems@[i as int]));
                    }
                    let c = elems[i].deep_copy();
                    out.push(c);
                    i = i + 1;
                }
                let r = JsonValue::Arr(out);
                proof {
                    assert(arr_view(out@) =~= arr_view(elems@));
                    assert(*self == JsonValue::Arr(*elems));
                }
                r
            },
            JsonValue::Obj(entries) => {
                let mut out: Vec<(String, JsonValue)> = Vec::new();
                let mut i: usize = 0;
                while i < entries.len()
                    invariant
                        i <= entries@.len(),
                        out@.len() == i,
                        forall|j: int|
                            0 <= j < i ==> out@[j].0@ == entries@[j].0@ && json_view(out@[j].1)
                                == json_view(entries@[j].1),
                    decreases entries@.len() - i,
                {
                    let k = entries[i].0.clone();
                    let v = entries[i].1.deep_copy();
                    out.push((k, v));
                    i = i + 1;
                }
                let r = JsonValue::Obj(out);
                proof {
                    assert(entries_view(out@) =~= entries_view(entries@));
                    assert(*self == JsonValue::Obj(*entries));
                }
                r
            },
        }
    }
}

/// Structural equality of two JSON values: equal variants, equal payloads,
/// and for arrays and objects equal length with equal elements in order.
#[verifier::loop_isolation(false)]
pub fn json_eq(a: &JsonValue, b: &JsonValue) -> (r: bool)
    ensures
        r == (json_view(*a) == json_view(*b)),
    decreases a,
{
    broadcast use lemma_json_view_arr, lemma_json_view_obj;

    match (a, b) {
        (JsonValue::Null, JsonValue::Null) => true,
        (JsonValue::Bool(x), JsonValue::Bool(y)) => x == y,
        (
            JsonValue::Num { int_val: i1, bits: b1 },
            JsonValue::Num { int_val: i2, bits: b2 },
        ) => {
            let ints_eq = match (i1, i2) {
                (Some(x), Some(y)) => x == y,
                (None, None) => true,
                _ => false,
            };
            ints_eq && b1 == b2
        },
        (JsonValue::Str(x), JsonValue::Str(y)) => str_eq(x.as_str(), y.as_str()),
        (JsonValue::Arr(xs), JsonValue::Arr(ys)) => {
            proof {
                assert(*a == JsonValue::Arr(*xs));
                assert(*b == JsonValue::Arr(*ys));
                lemma_json_view_arr(*xs);
                lemma_json_view_arr(*ys);
            }
            if xs.len() != ys.len() {
                proof {
                    assert(arr_view(xs@).len() != arr_view(ys@).len());
                }
                return false;
            }
            let mut i: usize = 0;
            while i < xs.len()
                invariant
                    i <= xs@.len(),
                    xs@.len() == ys@.len(),
                    a == JsonValue::Arr(*xs),
                    b == JsonValue::Arr(*ys),
                    forall|j: int| 0 <= j < i ==> json_view(xs@[j]) == json_view(ys@[j]),
                decreases xs@.len() - i,
            {
                proof {
                    assert(decreases_to!(*xs => xs@));
                    assert(decreases_to!(xs@ => xs@[i as int]));
                    assert(decreases_to!(*a => xs@[i as int]));
                }
                if !json_eq(&xs[i], &ys[i]) {
                    proof {
                        assert(arr_view(xs@)[i as int] != arr_view(ys@)[i as int]);
                    }
                    return false;
                }
                i = i + 1;
            }
            proof {
                assert(arr_view(xs@) =~= arr_view(ys@));
            }
            true
        },
        (JsonValue::Obj(xs), JsonValue::Obj(ys)) => {
            proof {
                assert(*a == JsonValue::Obj(*xs));
                assert(*b == JsonValue::Obj(*ys));
                lemma_json_view_obj(*xs);
                lemma_json_view_obj(*ys);
            }
            if xs.len() != ys.len() {
                proof {
                    assert(entries_view(xs@).len() != entries_view(ys@).len());
                }
                return false;
            }
            let mut i: usize = 0;
            while i < xs.len()
                invariant
                    i <= xs@.len(),
                    xs@.len() == ys@.len(),
                    a == JsonValue::Obj(*xs),
                    b == JsonValue::Obj(*ys),
                    forall|j: int|
                        0 <= j < i ==> xs@[j].0@ == ys@[j].0@ && json_view(xs@[j].1) == json_view(
                            ys@[j].1,
                        ),
                decreases xs@.len() - i,
            {
                if !str_eq(xs[i].0.as_str(), ys[i].0.as_str()) {
                    proof {
                        assert(entries_view(xs@)[i as int].0 != entries_view(ys@)[i as int].0);
                    }
                    return false;
                }
                proof {
                    assert(decreases_to!(*xs => xs@));
                    assert(decreases_to!(xs@ => xs@[i as int]));
                    assert(decreases_to!(xs@[i as int] => xs@[i as int].1));
                    assert(decreases_to!(*a => xs@[i as int].1));
                }
                if !json_eq(&xs[i].1, &ys[i].1) {
                    proof {
                        assert(entries_view(xs@)[i as int].1 != entries_view(ys@)[i as int].1);
                    }
                    return false;
                }
                i = i + 1;
            }
            proof {
                assert(entries_view(xs@) =~= entries_view(ys@));
            }
            true
        },
        _ => {
            proof {
                assert(json_view(*a) != json_view(*b));
            }
            false
        },
    }
}

/// A structural copy of an entry list, pair by pair.
pub fn clone_entries(src: &Vec<(String, JsonValue)>) -> (r: Vec<(String, JsonValue)>)
    ensures
        entries_view(r@) == entries_view(src@),
{
    let mut out: Vec<(String, JsonValue)> = Vec::new();
    let mut i: usize = 0;
    while i < src.len()
        invariant
            i <= src@.len(),
            out@.len() == i,
            forall|j: int|
                0 <= j < i ==> out@[j].0@ == src@[j].0@ && json_view(out@[j].1) == json_view(
                    src@[j].1,
                ),
        decreases src@.len() - i,
    {
        let k = src[i].0.clone();
        let v = src[i].1.deep_copy();
        out.push((k, v));
        i = i + 1;
    }
    proof {
        assert(entries_view(out@) =~= entries_view(src@));
    }
    out
}

/// Index of the first entry whose key is `key`, if any.
#[verifier::loop_isolation(false)]
pub fn obj_find(entries: &Vec<(String, JsonValue)>, key: &str) -> (r: Option<usize>)
    ensures
        match r {
            Some(j) => j < entries@.len() && obj_index_of(entries_view(entries@), key@)
                == j as int,
            None => obj_index_of(entries_view(entries@), key@) == -1,
        },
{
    proof {
        lemma_obj_index_of(entries_view(entries@), key@);
    }
    let mut i: usize = 0;
    while i < entries.len()
        invariant
            i <= entries@.len(),
            forall|j: int| 0 <= j < i ==> entries_view(entries@)[j].0 != key@,
        decreases entries@.len() - i,
    {
        if str_eq(entries[i].0.as_str(), key) {
            proof {
                assert(entries_view(entries@)[i as int].0 == key@);
            }
            return Some(i);
        }
        proof {
            assert(entries_view(entries@)[i as int].0 == entries@[i as int].0@);
        }
        i = i + 1;
    }
    None
}

/// The value of the first entry whose key is `key`, if any.
pub fn obj_get_value<'a>(entries: &'a Vec<(String, JsonValue)>, key: &str) -> (r: Option<
    &'a JsonValue,
>)
    ensures
        match r {
            Some(v) => obj_get(entries_view(entries@), key@) == Some(json_view(*v)),
            None => obj_get(entries_view(entries@), key@) is None,
        },
{
    match obj_find(entries, key) {
        Some(j) => Some(&entries[j].1),
        None => None,
    }
}

/// Merge `source`, which must be a JSON object, into the accumulated
/// parameter object `target`. The first writer of a key wins: a key already
/// in `target` keeps its value unless both sides hold objects, in which
/// case the two objects merge recursively. A non-object `source` is
/// rejected and `target` is left untouched.
#[verifier::loop_isolation(false)]
pub fn merge_params_prioritized(
    target: &mut Vec<(String, JsonValue)>,
    source: &JsonValue,
) -> (r: Result<(), ExperimentError>)
    ensures
        source is Obj ==> r is Ok && entries_view(final(target)@) == merge_entries_from(
            entries_view(old(target)@),
            json_view(*source),
            0,
        ),
        !(source is Obj) ==> (r matches Err(e) && (e matches ExperimentError::InvalidParameter(m)
            && m@ == "Source must be an object"@)) && final(target)@ == old(target)@,
    decreases source,
{
    broadcast use lemma_json_view_obj;

    let entries = match source {
        JsonValue::Obj(es) => es,
        _ => {
            return Err(
                ExperimentError::InvalidParameter(String::from_str("Source must be an object")),
            );
        },
    };
    proof {
        assert(*source == JsonValue::Obj(*entries));
    }
    let ghost sv = json_view(*source);
    let ghost t0 = entries_view(target@);
    let mut i: usize = 0;
    while i < entries.len()
        invariant
            i <= entries@.len(),
            sv == (JsonSpec::Obj(entries_view(entries@))),
            obj_len(sv) == entries@.len(),
            merge_entries_from(t0, sv, 0) == merge_entries_from(
                entries_view(target@),
                sv,
                i as int,
            ),
        decreases entries@.len() - i,
    {
        broadcast use lemma_json_view_obj;

        let ghost cur = entries_view(target@);
        let ghost e = entries_view(entries@)[i as int];
        proof {
            assert(e == (entries@[i as int].0@, json_view(entries@[i as int].1)));
        }
        let key: &String = &entries[i].0;
        let val: &JsonValue = &entries[i].1;
        match obj_find(target, key.as_str()) {
            None => {
                target.push((key.clone(), val.deep_copy()));
                proof {
                    assert(entries_view(target@) =~= cur.push(e));
                }
            },
            Some(j) => {
                let is_both_obj = match (&target[j].1, val) {
                    (JsonValue::Obj(_), JsonValue::Obj(_)) => true,
                    _ => false,
                };
                if is_both_obj {
                    let mut sub: Vec<(String, JsonValue)> = match &target[j].1 {
                        JsonValue::Obj(tsub) => clone_entries(tsub),
                        _ => Vec::new(),
                    };
                    let ghost tj = json_view(target@[j as int].1);
                    proof {
                        assert(entries_view(sub@) == tj->Obj_0);
                    }
                    proof {
                        assert(decreases_to!(*entries => entries@));
                        assert(decreases_to!(entries@ => entries@[i as int]));
                        assert(decreases_to!(entries@[i as int] => entries@[i as int].1));
                        assert(decreases_to!(*source => entries@[i as int].1));
                    }
                    let merged = merge_params_prioritized(&mut sub, val);
                    proof {
                        assert(merged is Ok);
                    }
                    let k2 = target[j].0.clone();
                    target[j] = (k2, JsonValue::Obj(sub));
                    proof {
                        assert(merge_value(cur[j as int].1, e.1) == (JsonSpec::Obj(
                            merge_entries_from(cur[j as int].1->Obj_0, e.1, 0),
                        )));
                        assert(entries_view(target@) =~= cur.update(
                            j as int,
                            (cur[j as int].0, merge_value(cur[j as int].1, e.1)),
                        ));
                    }
                } else {
                    proof {
                        assert(!(cur[j as int].1 is Obj && e.1 is Obj));
                    }
                }
            },
        }
        i = i + 1;
    }
    proof {
        assert(merge_entries_from(entries_view(target@), sv, i as int) == entries_view(target@));
    }
    Ok(())
}

} // verus!
