//! Spec-level view of a vector as a finite map.
//!
//! Every container in this crate is a vector of records with pairwise
//! distinct keys. These functions give such a vector a map-like reading:
//! `get_by` looks a record up by its key, `unique_keys` is the well-formedness
//! condition, and the lemmas describe how lookups change under push, removal
//! and in-place update.

use vstd::prelude::*;

verus! {

/// True if some record in `s` has key `id` under the projection `kf`.
pub open spec fn has_key<T, K>(s: Seq<T>, kf: spec_fn(T) -> K, id: K) -> bool {
    exists|k: int| 0 <= k < s.len() && kf(s[k]) == id
}

/// Index of the record with key `id` (meaningful only when `has_key` holds).
pub open spec fn key_at<T, K>(s: Seq<T>, kf: spec_fn(T) -> K, id: K) -> int {
    choose|k: int| 0 <= k < s.len() && kf(s[k]) == id
}

/// The record with key `id`, if any.
pub open spec fn get_by<T, K>(s: Seq<T>, kf: spec_fn(T) -> K, id: K) -> Option<T> {
    if has_key(s, kf, id) {
        Some(s[key_at(s, kf, id)])
    } else {
        None
    }
}

/// No two records share a key.
pub open spec fn unique_keys<T, K>(s: Seq<T>, kf: spec_fn(T) -> K) -> bool {
    forall|i: int, j: int| 0 <= i < j < s.len() ==> kf(s[i]) != kf(s[j])
}

/// Under unique keys, the record at index `i` is what lookup by its key finds.
pub proof fn lemma_get_by_index<T, K>(s: Seq<T>, kf: spec_fn(T) -> K, i: int)
    requires
        unique_keys(s, kf),
        0 <= i < s.len(),
    ensures
        key_at(s, kf, kf(s[i])) == i,
        get_by(s, kf, kf(s[i])) == Some(s[i]),
{
    assert(has_key(s, kf, kf(s[i])));
    let k = key_at(s, kf, kf(s[i]));
    assert(0 <= k < s.len() && kf(s[k]) == kf(s[i]));
    if k < i {
        assert(kf(s[k]) != kf(s[i]));
    } else if i < k {
        assert(kf(s[i]) != kf(s[k]));
    }
}

/// Appending a record with a fresh key: lookups of other keys are unchanged.
pub proof fn lemma_get_by_push<T, K>(s: Seq<T>, kf: spec_fn(T) -> K, x: T)
    requires
        unique_keys(s, kf),
        !has_key(s, kf, kf(x)),
    ensures
        unique_keys(s.push(x), kf),
        get_by(s.push(x), kf, kf(x)) == Some(x),
        has_key(s.push(x), kf, kf(x)),
        forall|id: K| id != kf(x) ==> get_by(s.push(x), kf, id) == get_by(s, kf, id),
        forall|id: K| id != kf(x) ==> has_key(s.push(x), kf, id) == has_key(s, kf, id),
{
    let t = s.push(x);
    assert forall|i: int, j: int| 0 <= i < j < t.len() implies kf(t[i]) != kf(t[j]) by {
        if j == s.len() {
            assert(t[j] == x);
            assert(t[i] == s[i]);
            if kf(s[i]) == kf(x) {
                assert(has_key(s, kf, kf(x)));
            }
        } else {
            assert(t[i] == s[i] && t[j] == s[j]);
        }
    }
    assert(t[s.len() as int] == x);
    lemma_get_by_index(t, kf, s.len() as int);
    assert forall|id: K| id != kf(x) implies get_by(t, kf, id) == get_by(s, kf, id) by {
        if has_key(s, kf, id) {
            let k = key_at(s, kf, id);
            assert(t[k] == s[k]);
            lemma_get_by_index(s, kf, k);
            lemma_get_by_index(t, kf, k);
        } else {
            if has_key(t, kf, id) {
                let k = key_at(t, kf, id);
                assert(0 <= k < t.len() && kf(t[k]) == id);
                assert(k != s.len());
                assert(t[k] == s[k]);
                assert(has_key(s, kf, id));
            }
        }
    }
    assert forall|id: K| id != kf(x) implies has_key(t, kf, id) == has_key(s, kf, id) by {
        assert(get_by(t, kf, id) == get_by(s, kf, id));
    }
}

/// Removing the record at index `i`: only its key disappears from the map.
pub proof fn lemma_get_by_remove<T, K>(s: Seq<T>, kf: spec_fn(T) -> K, i: int)
    requires
        unique_keys(s, kf),
        0 <= i < s.len(),
    ensures
        unique_keys(s.remove(i), kf),
        get_by(s.remove(i), kf, kf(s[i])) == None::<T>,
        !has_key(s.remove(i), kf, kf(s[i])),
        forall|id: K| id != kf(s[i]) ==> get_by(s.remove(i), kf, id) == get_by(s, kf, id),
        forall|id: K| id != kf(s[i]) ==> has_key(s.remove(i), kf, id) == has_key(s, kf, id),
{
    let t = s.remove(i);
    assert forall|p: int, q: int| 0 <= p < q < t.len() implies kf(t[p]) != kf(t[q]) by {
        let p0 = if p < i { p } else { p + 1 };
        let q0 = if q < i { q } else { q + 1 };
        assert(t[p] == s[p0] && t[q] == s[q0]);
    }
    if has_key(t, kf, kf(s[i])) {
        let k = key_at(t, kf, kf(s[i]));
        let k0 = if k < i { k } else { k + 1 };
        assert(t[k] == s[k0]);
        assert(kf(s[k0]) == kf(s[i]) && k0 != i);
    }
    assert forall|id: K| id != kf(s[i]) implies get_by(t, kf, id) == get_by(s, kf, id) by {
        if has_key(s, kf, id) {
            let k = key_at(s, kf, id);
            lemma_get_by_index(s, kf, k);
            assert(k != i);
            let k1 = if k < i { k } else { k - 1 };
            assert(t[k1] == s[k]);
            lemma_get_by_index(t, kf, k1);
        } else {
            if has_key(t, kf, id) {
                let k = key_at(t, kf, id);
                let k0 = if k < i { k } else { k + 1 };
                assert(t[k] == s[k0]);
                assert(has_key(s, kf, id));
            }
        }
    }
    assert forall|id: K| id != kf(s[i]) implies has_key(t, kf, id) == has_key(s, kf, id) by {
        assert(get_by(t, kf, id) == get_by(s, kf, id));
    }
}

/// Replacing the record at index `i` by one with the same key: only that
/// key's lookup changes.
pub proof fn lemma_get_by_update<T, K>(s: Seq<T>, kf: spec_fn(T) -> K, i: int, x: T)
    requires
        unique_keys(s, kf),
        0 <= i < s.len(),
        kf(x) == kf(s[i]),
    ensures
        unique_keys(s.update(i, x), kf),
        get_by(s.update(i, x), kf, kf(x)) == Some(x),
        has_key(s.update(i, x), kf, kf(x)),
        forall|id: K| id != kf(x) ==> get_by(s.update(i, x), kf, id) == get_by(s, kf, id),
        forall|id: K| id != kf(x) ==> has_key(s.update(i, x), kf, id) == has_key(s, kf, id),
{
    let t = s.update(i, x);
    assert forall|p: int, q: int| 0 <= p < q < t.len() implies kf(t[p]) != kf(t[q]) by {
        assert(kf(t[p]) == kf(s[p]) && kf(t[q]) == kf(s[q]));
    }
    assert(t[i] == x);
    lemma_get_by_index(t, kf, i);
    assert forall|id: K| id != kf(x) implies get_by(t, kf, id) == get_by(s, kf, id) by {
        if has_key(s, kf, id) {
            let k = key_at(s, kf, id);
            lemma_get_by_index(s, kf, k);
            assert(k != i);
            assert(t[k] == s[k]);
            lemma_get_by_index(t, kf, k);
        } else {
            if has_key(t, kf, id) {
                let k = key_at(t, kf, id);
                assert(kf(t[k]) == id);
                assert(k != i);
                assert(t[k] == s[k]);
                assert(has_key(s, kf, id));
            }
        }
    }
    assert forall|id: K| id != kf(x) implies has_key(t, kf, id) == has_key(s, kf, id) by {
        assert(get_by(t, kf, id) == get_by(s, kf, id));
    }
}

/// Inserting a record with a fresh key at position `i`: lookups of other
/// keys are unchanged.
pub proof fn lemma_get_by_insert<T, K>(s: Seq<T>, kf: spec_fn(T) -> K, i: int, x: T)
    requires
        unique_keys(s, kf),
        !has_key(s, kf, kf(x)),
        0 <= i <= s.len(),
    ensures
        unique_keys(s.insert(i, x), kf),
        get_by(s.insert(i, x), kf, kf(x)) == Some(x),
        has_key(s.insert(i, x), kf, kf(x)),
        forall|id: K| id != kf(x) ==> get_by(s.insert(i, x), kf, id) == get_by(s, kf, id),
        forall|id: K| id != kf(x) ==> has_key(s.insert(i, x), kf, id) == has_key(s, kf, id),
{
    let t = s.insert(i, x);
    assert forall|p: int, q: int| 0 <= p < q < t.len() implies kf(t[p]) != kf(t[q]) by {
        if p == i {
            assert(t[p] == x && t[q] == s[q - 1]);
            if kf(x) == kf(s[q - 1]) {
                assert(has_key(s, kf, kf(x)));
            }
        } else if q == i {
            assert(t[q] == x && t[p] == s[p]);
            if kf(x) == kf(s[p]) {
                assert(has_key(s, kf, kf(x)));
            }
        } else {
            let p0 = if p < i { p } else { p - 1 };
            let q0 = if q < i { q } else { q - 1 };
            assert(t[p] == s[p0] && t[q] == s[q0]);
        }
    }
    assert(t[i] == x);
    lemma_get_by_index(t, kf, i);
    assert forall|id: K| id != kf(x) implies get_by(t, kf, id) == get_by(s, kf, id) by {
        if has_key(s, kf, id) {
            let k = key_at(s, kf, id);
            lemma_get_by_index(s, kf, k);
            let k1 = if k < i { k } else { k + 1 };
            assert(t[k1] == s[k]);
            lemma_get_by_index(t, kf, k1);
        } else {
            if has_key(t, kf, id) {
                let k = key_at(t, kf, id);
                assert(k != i);
                let k0 = if k < i { k } else { k - 1 };
                assert(t[k] == s[k0]);
                assert(has_key(s, kf, id));
            }
        }
    }
    assert forall|id: K| id != kf(x) implies has_key(t, kf, id) == has_key(s, kf, id) by {
        assert(get_by(t, kf, id) == get_by(s, kf, id));
    }
}

/// Splitting at `c`: a key found in the prefix is absent from the suffix,
/// and a key absent from the prefix is found in the suffix exactly as in the
/// whole sequence.
pub proof fn lemma_get_by_suffix<T, K>(s: Seq<T>, kf: spec_fn(T) -> K, c: int)
    requires
        unique_keys(s, kf),
        0 <= c <= s.len(),
    ensures
        unique_keys(s.subrange(c, s.len() as int), kf),
        unique_keys(s.subrange(0, c), kf),
        forall|id: K|
            #[trigger] get_by(s.subrange(c, s.len() as int), kf, id) == (if has_key(
                s.subrange(0, c),
                kf,
                id,
            ) {
                None
            } else {
                get_by(s, kf, id)
            }),
{
    let suf = s.subrange(c, s.len() as int);
    let pre = s.subrange(0, c);
    assert forall|p: int, q: int| 0 <= p < q < suf.len() implies kf(suf[p]) != kf(suf[q]) by {
        assert(suf[p] == s[p + c] && suf[q] == s[q + c]);
    }
    assert forall|p: int, q: int| 0 <= p < q < pre.len() implies kf(pre[p]) != kf(pre[q]) by {
        assert(pre[p] == s[p] && pre[q] == s[q]);
    }
    assert forall|id: K|
        #[trigger] get_by(suf, kf, id) == (if has_key(pre, kf, id) {
            None
        } else {
            get_by(s, kf, id)
        }) by {
        if has_key(pre, kf, id) {
            let k = key_at(pre, kf, id);
            assert(pre[k] == s[k]);
            if has_key(suf, kf, id) {
                let k2 = key_at(suf, kf, id);
                assert(suf[k2] == s[k2 + c]);
                assert(kf(s[k]) == kf(s[k2 + c]));
            }
        } else {
            if has_key(s, kf, id) {
                let k = key_at(s, kf, id);
                lemma_get_by_index(s, kf, k);
                assert(k >= c) by {
                    if k < c {
                        assert(pre[k] == s[k]);
                        assert(has_key(pre, kf, id));
                    }
                }
                assert(suf[k - c] == s[k]);
                lemma_get_by_index(suf, kf, k - c);
            } else {
                if has_key(suf, kf, id) {
                    let k2 = key_at(suf, kf, id);
                    assert(suf[k2] == s[k2 + c]);
                    assert(has_key(s, kf, id));
                }
            }
        }
    }
}

} // verus!
