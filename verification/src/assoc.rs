//! Association lists with string or integer keys: the lookup tables that
//! the catalog and the layer manager are built on. Lookups take the first
//! entry with a matching key; the owners keep keys unique.

use vstd::prelude::*;
use crate::strings::str_eq;

verus! {

/// Index of the first entry with string key `k`, or `-1`.
pub open spec fn key_index_of<V>(s: Seq<(Seq<char>, V)>, k: Seq<char>) -> int
    decreases s.len(),
{
    if s.len() == 0 {
        -1
    } else if s[0].0 == k {
        0
    } else {
        let r = key_index_of(s.drop_first(), k);
        if r < 0 {
            -1
        } else {
            r + 1
        }
    }
}

/// Whether some entry carries string key `k`.
pub open spec fn has_key<V>(s: Seq<(Seq<char>, V)>, k: Seq<char>) -> bool {
    key_index_of(s, k) >= 0
}

/// The value of the first entry with string key `k`, if any.
pub open spec fn key_get<V>(s: Seq<(Seq<char>, V)>, k: Seq<char>) -> Option<V> {
    if has_key(s, k) {
        Some(s[key_index_of(s, k)].1)
    } else {
        None
    }
}

/// `key_index_of` finds the first matching entry and nothing else.
pub proof fn lemma_key_index_of<V>(s: Seq<(Seq<char>, V)>, k: Seq<char>)
    ensures
        key_index_of(s, k) == -1 || (0 <= key_index_of(s, k) < s.len()),
        key_index_of(s, k) >= 0 ==> s[key_index_of(s, k)].0 == k,
        forall|j: int|
            0 <= j < s.len() && (key_index_of(s, k) == -1 || j < key_index_of(s, k)) ==> s[j].0
                != k,
    decreases s.len(),
{
    if s.len() > 0 && s[0].0 != k {
        lemma_key_index_of(s.drop_first(), k);
        assert forall|j: int|
            0 <= j < s.len() && (key_index_of(s, k) == -1 || j < key_index_of(s, k)) implies s[j].0
            != k by {
            if j > 0 {
                assert(s.drop_first()[j - 1] == s[j]);
            }
        }
    }
}

/// If `m` is the first position carrying key `k`, the lookup finds it.
pub proof fn lemma_key_index_of_is<V>(s: Seq<(Seq<char>, V)>, k: Seq<char>, m: int)
    requires
        0 <= m < s.len(),
        s[m].0 == k,
        forall|j: int| 0 <= j < m ==> s[j].0 != k,
    ensures
        key_index_of(s, k) == m,
    decreases s.len(),
{
    if m > 0 {
        assert(s[0].0 != k);
        assert forall|j: int| 0 <= j < m - 1 implies s.drop_first()[j].0 != k by {
            assert(s.drop_first()[j] == s[j + 1]);
        }
        assert(s.drop_first()[m - 1] == s[m]);
        lemma_key_index_of_is(s.drop_first(), k, m - 1);
    }
}

/// The model of a string-keyed table.
pub open spec fn kview<V>(es: Seq<(String, V)>) -> Seq<(Seq<char>, V)> {
    Seq::new(es.len(), |i: int| (es[i].0@, es[i].1))
}

/// Find the first entry with string key `key`.
#[verifier::loop_isolation(false)]
pub fn key_find<V>(entries: &Vec<(String, V)>, key: &str) -> (r: Option<usize>)
    ensures
        match r {
            Some(j) => j < entries@.len() && key_index_of(kview(entries@), key@) == j as int,
            None => key_index_of(kview(entries@), key@) == -1,
        },
{
    proof {
        lemma_key_index_of(kview(entries@), key@);
    }
    let mut i: usize = 0;
    while i < entries.len()
        invariant
            i <= entries@.len(),
            forall|j: int| 0 <= j < i ==> kview(entries@)[j].0 != key@,
        decreases entries@.len() - i,
    {
        if str_eq(entries[i].0.as_str(), key) {
            proof {
                assert(kview(entries@)[i as int].0 == key@);
            }
            return Some(i);
        }
        proof {
            assert(kview(entries@)[i as int].0 == entries@[i as int].0@);
        }
        i = i + 1;
    }
    None
}

/// Appending an entry: lookups of every other key are unchanged; a key
/// that was absent now finds the new entry.
pub proof fn lemma_key_push<V>(s: Seq<(Seq<char>, V)>, e: (Seq<char>, V))
    ensures
        has_key(s, e.0) ==> key_get(s.push(e), e.0) == key_get(s, e.0),
        !has_key(s, e.0) ==> key_get(s.push(e), e.0) == Some(e.1),
        forall|k: Seq<char>| k != e.0 ==> #[trigger] key_get(s.push(e), k) == key_get(s, k),
{
    let u = s.push(e);
    assert(forall|j: int| 0 <= j < s.len() ==> #[trigger] u[j] == s[j]);
    assert(u[s.len() as int] == e);
    lemma_key_index_of(s, e.0);
    if has_key(s, e.0) {
        lemma_key_index_of_is(u, e.0, key_index_of(s, e.0));
    } else {
        lemma_key_index_of_is(u, e.0, s.len() as int);
    }
    assert forall|k: Seq<char>| k != e.0 implies #[trigger] key_get(u, k) == key_get(s, k) by {
        lemma_key_index_of(s, k);
        lemma_key_index_of(u, k);
        match key_get(s, k) {
            Some(v) => {
                lemma_key_index_of_is(u, k, key_index_of(s, k));
            },
            None => {
                if has_key(u, k) {
                    let m = key_index_of(u, k);
                    if m < s.len() {
                        assert(u[m] == s[m]);
                    }
                    assert(false);
                }
            },
        }
    }
}

/// Removing an entry leaves every other key's lookup alone, provided the
/// keys are unique.
pub proof fn lemma_key_remove<V>(s: Seq<(Seq<char>, V)>, j: int)
    requires
        0 <= j < s.len(),
        forall|i1: int, i2: int|
            0 <= i1 < i2 < s.len() ==> (#[trigger] s[i1]).0 != (#[trigger] s[i2]).0,
    ensures
        key_get(s.remove(j), s[j].0) is None,
        forall|k: Seq<char>| k != s[j].0 ==> #[trigger] key_get(s.remove(j), k) == key_get(s, k),
{
    let r = s.remove(j);
    lemma_key_index_of(s, s[j].0);
    if has_key(r, s[j].0) {
        lemma_key_index_of(r, s[j].0);
        let m = key_index_of(r, s[j].0);
        assert(r[m] == (if m < j {
            s[m]
        } else {
            s[m + 1]
        }));
        assert(false);
    }
    assert forall|k: Seq<char>| k != s[j].0 implies #[trigger] key_get(r, k) == key_get(s, k) by {
        lemma_key_index_of(s, k);
        lemma_key_index_of(r, k);
        match key_get(s, k) {
            Some(v) => {
                let m = key_index_of(s, k);
                if m < j {
                    lemma_key_index_of_is(r, k, m);
                } else {
                    assert(r[m - 1] == s[m]);
                    assert forall|x: int| 0 <= x < m - 1 implies r[x].0 != k by {
                        assert(r[x] == (if x < j {
                            s[x]
                        } else {
                            s[x + 1]
                        }));
                    }
                    lemma_key_index_of_is(r, k, m - 1);
                }
            },
            None => {
                if has_key(r, k) {
                    let m = key_index_of(r, k);
                    assert(r[m] == (if m < j {
                        s[m]
                    } else {
                        s[m + 1]
                    }));
                    assert(false);
                }
            },
        }
    }
}

/// Replacing the value at one position while keeping its key: every
/// lookup index is unchanged, and only a lookup landing on that very
/// position reads the new value.
pub proof fn lemma_key_update<V>(s: Seq<(Seq<char>, V)>, j: int, v: V)
    requires
        0 <= j < s.len(),
    ensures
        forall|k: Seq<char>|
            #[trigger] key_index_of(s.update(j, (s[j].0, v)), k) == key_index_of(s, k),
        forall|k: Seq<char>|
            #[trigger] key_get(s.update(j, (s[j].0, v)), k) == (if key_index_of(s, k) == j {
                Some(v)
            } else {
                key_get(s, k)
            }),
{
    let u = s.update(j, (s[j].0, v));
    assert(forall|i: int| 0 <= i < s.len() && i != j ==> #[trigger] u[i] == s[i]);
    assert(u[j] == (s[j].0, v));
    assert(forall|i: int| 0 <= i < s.len() ==> (#[trigger] u[i]).0 == s[i].0);
    assert forall|k: Seq<char>| #[trigger] key_index_of(u, k) == key_index_of(s, k) by {
        lemma_key_index_of(s, k);
        lemma_key_index_of(u, k);
        if has_key(s, k) {
            lemma_key_index_of_is(u, k, key_index_of(s, k));
        } else {
            if has_key(u, k) {
                let m = key_index_of(u, k);
                assert(s[m].0 == k);
                assert(false);
            }
        }
    }
    assert forall|k: Seq<char>| #[trigger] key_get(u, k) == (if key_index_of(s, k) == j {
        Some(v)
    } else {
        key_get(s, k)
    }) by {
        lemma_key_index_of(s, k);
        if has_key(s, k) && key_index_of(s, k) != j {
            assert(u[key_index_of(s, k)] == s[key_index_of(s, k)]);
        }
    }
}

/// Index of the first entry with integer key `k`, or `-1`.
pub open spec fn ikey_index_of<V>(s: Seq<(i64, V)>, k: i64) -> int
    decreases s.len(),
{
    if s.len() == 0 {
        -1
    } else if s[0].0 == k {
        0
    } else {
        let r = ikey_index_of(s.drop_first(), k);
        if r < 0 {
            -1
        } else {
            r + 1
        }
    }
}

/// Whether some entry carries integer key `k`.
pub open spec fn has_ikey<V>(s: Seq<(i64, V)>, k: i64) -> bool {
    ikey_index_of(s, k) >= 0
}

/// The value of the first entry with integer key `k`, if any.
pub open spec fn ikey_get<V>(s: Seq<(i64, V)>, k: i64) -> Option<V> {
    if has_ikey(s, k) {
        Some(s[ikey_index_of(s, k)].1)
    } else {
        None
    }
}

/// `ikey_index_of` finds the first matching entry and nothing else.
pub proof fn lemma_ikey_index_of<V>(s: Seq<(i64, V)>, k: i64)
    ensures
        ikey_index_of(s, k) == -1 || (0 <= ikey_index_of(s, k) < s.len()),
        ikey_index_of(s, k) >= 0 ==> s[ikey_index_of(s, k)].0 == k,
        forall|j: int|
            0 <= j < s.len() && (ikey_index_of(s, k) == -1 || j < ikey_index_of(s, k)) ==> s[j].0
                != k,
    decreases s.len(),
{
    if s.len() > 0 && s[0].0 != k {
        lemma_ikey_index_of(s.drop_first(), k);
        assert forall|j: int|
            0 <= j < s.len() && (ikey_index_of(s, k) == -1 || j < ikey_index_of(s, k)) implies
            s[j].0 != k by {
            if j > 0 {
                assert(s.drop_first()[j - 1] == s[j]);
            }
        }
    }
}

/// If `m` is the first position carrying key `k`, the lookup finds it.
pub proof fn lemma_ikey_index_of_is<V>(s: Seq<(i64, V)>, k: i64, m: int)
    requires
        0 <= m < s.len(),
        s[m].0 == k,
        forall|j: int| 0 <= j < m ==> s[j].0 != k,
    ensures
        ikey_index_of(s, k) == m,
    decreases s.len(),
{
    if m > 0 {
        assert(s[0].0 != k);
        assert forall|j: int| 0 <= j < m - 1 implies s.drop_first()[j].0 != k by {
            assert(s.drop_first()[j] == s[j + 1]);
        }
        assert(s.drop_first()[m - 1] == s[m]);
        lemma_ikey_index_of_is(s.drop_first(), k, m - 1);
    }
}

/// Find the first entry with integer key `key`.
#[verifier::loop_isolation(false)]
pub fn ikey_find<V>(entries: &Vec<(i64, V)>, key: i64) -> (r: Option<usize>)
    ensures
        match r {
            Some(j) => j < entries@.len() && ikey_index_of(entries@, key) == j as int,
            None => ikey_index_of(entries@, key) == -1,
        },
{
    proof {
        lemma_ikey_index_of(entries@, key);
    }
    let mut i: usize = 0;
    while i < entries.len()
        invariant
            i <= entries@.len(),
            forall|j: int| 0 <= j < i ==> entries@[j].0 != key,
        decreases entries@.len() - i,
    {
        if entries[i].0 == key {
            return Some(i);
        }
        i = i + 1;
    }
    None
}

/// Removing an entry leaves every other key's lookup alone, provided the
/// keys are unique.
pub proof fn lemma_ikey_remove<V>(s: Seq<(i64, V)>, k: int)
    requires
        0 <= k < s.len(),
        forall|i: int, j: int| 0 <= i < j < s.len() ==> (#[trigger] s[i]).0 != (#[trigger] s[j]).0,
    ensures
        ikey_get(s.remove(k), s[k].0) is None,
        forall|key: i64|
            key != s[k].0 ==> #[trigger] ikey_get(s.remove(k), key) == ikey_get(s, key),
        forall|i: int, j: int|
            0 <= i < j < s.remove(k).len() ==> (#[trigger] s.remove(k)[i]).0 != (
            #[trigger] s.remove(k)[j]).0,
{
    let r = s.remove(k);
    assert forall|i: int, j: int| 0 <= i < j < r.len() implies (#[trigger] r[i]).0 != (
    #[trigger] r[j]).0 by {
        assert(r[i] == (if i < k { s[i] } else { s[i + 1] }));
        assert(r[j] == (if j < k { s[j] } else { s[j + 1] }));
    }
    lemma_ikey_index_of(s, s[k].0);
    if has_ikey(r, s[k].0) {
        lemma_ikey_index_of(r, s[k].0);
        let m = ikey_index_of(r, s[k].0);
        assert(r[m] == (if m < k { s[m] } else { s[m + 1] }));
        assert(false);
    }
    assert forall|key: i64| key != s[k].0 implies #[trigger] ikey_get(s.remove(k), key)
        == ikey_get(s, key) by {
        lemma_ikey_index_of(s, key);
        lemma_ikey_index_of(r, key);
        match ikey_get(s, key) {
            Some(v) => {
                let m = ikey_index_of(s, key);
                if m < k {
                    lemma_ikey_index_of_is(r, key, m);
                } else {
                    assert(r[m - 1] == s[m]);
                    assert forall|j: int| 0 <= j < m - 1 implies r[j].0 != key by {
                        assert(r[j] == (if j < k { s[j] } else { s[j + 1] }));
                    }
                    lemma_ikey_index_of_is(r, key, m - 1);
                }
            },
            None => {
                if has_ikey(r, key) {
                    let m = ikey_index_of(r, key);
                    assert(r[m] == (if m < k { s[m] } else { s[m + 1] }));
                    assert(false);
                }
            },
        }
    }
}

/// Appending an entry with a fresh key leaves every other lookup alone
/// and makes the new key visible.
pub proof fn lemma_ikey_push<V>(s: Seq<(i64, V)>, e: (i64, V))
    ensures
        has_ikey(s, e.0) ==> ikey_get(s.push(e), e.0) == ikey_get(s, e.0),
        !has_ikey(s, e.0) ==> ikey_get(s.push(e), e.0) == Some(e.1),
        forall|key: i64|
            key != e.0 ==> #[trigger] ikey_get(s.push(e), key) == ikey_get(s, key),
{
    let u = s.push(e);
    assert(forall|j: int| 0 <= j < s.len() ==> #[trigger] u[j] == s[j]);
    assert(u[s.len() as int] == e);
    lemma_ikey_index_of(s, e.0);
    if has_ikey(s, e.0) {
        lemma_ikey_index_of_is(u, e.0, ikey_index_of(s, e.0));
    } else {
        lemma_ikey_index_of_is(u, e.0, s.len() as int);
    }
    assert forall|key: i64| key != e.0 implies #[trigger] ikey_get(u, key) == ikey_get(s, key) by {
        lemma_ikey_index_of(s, key);
        lemma_ikey_index_of(u, key);
        match ikey_get(s, key) {
            Some(v) => {
                lemma_ikey_index_of_is(u, key, ikey_index_of(s, key));
            },
            None => {
                if has_ikey(u, key) {
                    let m = ikey_index_of(u, key);
                    if m < s.len() {
                        assert(u[m] == s[m]);
                    }
                    assert(false);
                }
            },
        }
    }
}

/// A lookup in a concatenation reads the left part first.
pub proof fn lemma_ikey_concat<V>(x: Seq<(i64, V)>, y: Seq<(i64, V)>, key: i64)
    ensures
        has_ikey(x, key) ==> ikey_get(x + y, key) == ikey_get(x, key),
        !has_ikey(x, key) ==> ikey_get(x + y, key) == ikey_get(y, key),
    decreases x.len(),
{
    lemma_ikey_index_of(x, key);
    lemma_ikey_index_of(y, key);
    lemma_ikey_index_of(x + y, key);
    if x.len() == 0 {
        assert(x + y =~= y);
    } else {
        assert((x + y)[0] == x[0]);
        assert((x + y).drop_first() =~= x.drop_first() + y);
        lemma_ikey_concat(x.drop_first(), y, key);
        lemma_ikey_index_of(x.drop_first(), key);
        lemma_ikey_index_of(x.drop_first() + y, key);
        if x[0].0 == key {
        } else {
            assert(ikey_index_of(x + y, key) == (if ikey_index_of(x.drop_first() + y, key) < 0 {
                -1
            } else {
                ikey_index_of(x.drop_first() + y, key) + 1
            }));
            if has_ikey(x.drop_first() + y, key) {
                assert((x + y)[ikey_index_of(x.drop_first() + y, key) + 1] == (x.drop_first()
                    + y)[ikey_index_of(x.drop_first() + y, key)]);
            }
        }
    }
}

} // verus!
