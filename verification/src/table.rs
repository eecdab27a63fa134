//! Association-list machinery shared by the alias table and the user store.
//!
//! The store keeps its mappings as vectors of entries with pairwise-distinct
//! keys.  `pmap` abstracts such a sequence into a `Map`, given functions that
//! project an entry to its key and to its value; the lemmas below say how the
//! abstraction moves under `push`, `update` and `remove`.

use vstd::prelude::*;

verus! {

/// The map abstracted from a sequence of entries; a later entry with the same
/// key wins, which is irrelevant whenever the keys are distinct.
pub open spec fn pmap<A, K, V>(s: Seq<A>, key: spec_fn(A) -> K, val: spec_fn(A) -> V) -> Map<
    K,
    V,
>
    decreases s.len(),
{
    if s.len() == 0 {
        Map::empty()
    } else {
        pmap(s.drop_last(), key, val).insert(key(s.last()), val(s.last()))
    }
}

/// No two entries share a key.
pub open spec fn pdistinct<A, K>(s: Seq<A>, key: spec_fn(A) -> K) -> bool {
    forall|i: int, j: int| 0 <= i < j < s.len() ==> key(s[i]) != key(s[j])
}

/// Some entry carries the key `k`.
pub open spec fn has_pkey<A, K>(s: Seq<A>, key: spec_fn(A) -> K, k: K) -> bool {
    exists|i: int| 0 <= i < s.len() && key(s[i]) == k
}

/// The abstract map's domain is exactly the set of entry keys.
pub proof fn lemma_pmap_domain<A, K, V>(s: Seq<A>, key: spec_fn(A) -> K, val: spec_fn(A) -> V)
    ensures
        forall|k: K| #[trigger] pmap(s, key, val).contains_key(k) <==> has_pkey(s, key, k),
    decreases s.len(),
{
    if s.len() > 0 {
        lemma_pmap_domain(s.drop_last(), key, val);
        assert forall|k: K| #[trigger] pmap(s, key, val).contains_key(k) <==> has_pkey(
            s,
            key,
            k,
        ) by {
            assert(pmap(s, key, val) == pmap(s.drop_last(), key, val).insert(
                key(s.last()),
                val(s.last()),
            ));
            if k == key(s.last()) {
                assert(key(s[s.len() - 1]) == k);
                assert(has_pkey(s, key, k));
                assert(pmap(s, key, val).contains_key(k));
            } else {
                assert(pmap(s, key, val).contains_key(k) == pmap(
                    s.drop_last(),
                    key,
                    val,
                ).contains_key(k));
                if has_pkey(s.drop_last(), key, k) {
                    let i = choose|i: int|
                        0 <= i < s.drop_last().len() && key(s.drop_last()[i]) == k;
                    assert(key(s[i]) == k);
                    assert(has_pkey(s, key, k));
                }
                if has_pkey(s, key, k) {
                    let i = choose|i: int| 0 <= i < s.len() && key(s[i]) == k;
                    assert(i < s.len() - 1);
                    assert(key(s.drop_last()[i]) == k);
                    assert(has_pkey(s.drop_last(), key, k));
                }
            }
        }
    }
}

/// With distinct keys, the abstract map sends each entry's key to its value.
pub proof fn lemma_pmap_index<A, K, V>(
    s: Seq<A>,
    key: spec_fn(A) -> K,
    val: spec_fn(A) -> V,
    i: int,
)
    requires
        pdistinct(s, key),
        0 <= i < s.len(),
    ensures
        pmap(s, key, val).contains_key(key(s[i])),
        pmap(s, key, val)[key(s[i])] == val(s[i]),
    decreases s.len(),
{
    if i == s.len() - 1 {
    } else {
        assert(pdistinct(s.drop_last(), key));
        assert(s.drop_last()[i] == s[i]);
        lemma_pmap_index(s.drop_last(), key, val, i);
        assert(key(s[i]) != key(s.last()));
    }
}

/// Appending an entry inserts its key-value pair.
pub proof fn lemma_pmap_push<A, K, V>(s: Seq<A>, key: spec_fn(A) -> K, val: spec_fn(A) -> V, a: A)
    ensures
        pmap(s.push(a), key, val) == pmap(s, key, val).insert(key(a), val(a)),
{
    assert(s.push(a).drop_last() =~= s);
    assert(s.push(a).last() == a);
}

/// Replacing the entry at `i` by one with the same key updates that key's value.
pub proof fn lemma_pmap_update<A, K, V>(
    s: Seq<A>,
    key: spec_fn(A) -> K,
    val: spec_fn(A) -> V,
    i: int,
    a: A,
)
    requires
        pdistinct(s, key),
        0 <= i < s.len(),
        key(a) == key(s[i]),
    ensures
        pmap(s.update(i, a), key, val) == pmap(s, key, val).insert(key(a), val(a)),
    decreases s.len(),
{
    if i == s.len() - 1 {
        assert(s.update(i, a).drop_last() =~= s.drop_last());
        assert(s.update(i, a).last() == a);
        assert(pmap(s.update(i, a), key, val) =~= pmap(s, key, val).insert(key(a), val(a)));
    } else {
        assert(s.update(i, a).drop_last() =~= s.drop_last().update(i, a));
        assert(s.update(i, a).last() == s.last());
        assert(pdistinct(s.drop_last(), key));
        assert(s.drop_last()[i] == s[i]);
        lemma_pmap_update(s.drop_last(), key, val, i, a);
        assert(key(a) != key(s.last()));
        assert(pmap(s.update(i, a), key, val) =~= pmap(s, key, val).insert(key(a), val(a)));
    }
}

/// Removing the entry at `i` removes its key (when keys are distinct).
pub proof fn lemma_pmap_remove<A, K, V>(
    s: Seq<A>,
    key: spec_fn(A) -> K,
    val: spec_fn(A) -> V,
    i: int,
)
    requires
        pdistinct(s, key),
        0 <= i < s.len(),
    ensures
        pmap(s.remove(i), key, val) == pmap(s, key, val).remove(key(s[i])),
    decreases s.len(),
{
    lemma_pmap_domain(s.drop_last(), key, val);
    if i == s.len() - 1 {
        assert(s.remove(i) =~= s.drop_last());
        assert(!has_pkey(s.drop_last(), key, key(s[i])));
        assert(pmap(s.remove(i), key, val) =~= pmap(s, key, val).remove(key(s[i])));
    } else {
        assert(s.remove(i).drop_last() =~= s.drop_last().remove(i));
        assert(s.remove(i).last() == s.last());
        assert(pdistinct(s.drop_last(), key));
        assert(s.drop_last()[i] == s[i]);
        lemma_pmap_remove(s.drop_last(), key, val, i);
        assert(key(s[i]) != key(s.last()));
        assert(pmap(s.remove(i), key, val) =~= pmap(s, key, val).remove(key(s[i])));
    }
}

/// Distinctness survives appending a fresh key.
pub proof fn lemma_pdistinct_push<A, K>(s: Seq<A>, key: spec_fn(A) -> K, a: A)
    requires
        pdistinct(s, key),
        !has_pkey(s, key, key(a)),
    ensures
        pdistinct(s.push(a), key),
{
    assert forall|i: int, j: int| 0 <= i < j < s.push(a).len() implies key(s.push(a)[i]) != key(
        s.push(a)[j],
    ) by {
        if j == s.len() {
            assert(key(s[i]) != key(a));
        }
    }
}

/// Distinctness survives replacing an entry by one with the same key.
pub proof fn lemma_pdistinct_update<A, K>(s: Seq<A>, key: spec_fn(A) -> K, i: int, a: A)
    requires
        pdistinct(s, key),
        0 <= i < s.len(),
        key(a) == key(s[i]),
    ensures
        pdistinct(s.update(i, a), key),
{
}

/// Distinctness survives removing an entry.
pub proof fn lemma_pdistinct_remove<A, K>(s: Seq<A>, key: spec_fn(A) -> K, i: int)
    requires
        pdistinct(s, key),
        0 <= i < s.len(),
    ensures
        pdistinct(s.remove(i), key),
        !has_pkey(s.remove(i), key, key(s[i])),
{
    assert forall|p: int, q: int| 0 <= p < q < s.remove(i).len() implies key(
        s.remove(i)[p],
    ) != key(s.remove(i)[q]) by {
        let p0: int = if p < i {
            p
        } else {
            p + 1
        };
        let q0: int = if q < i {
            q
        } else {
            q + 1
        };
        assert(s.remove(i)[p] == s[p0]);
        assert(s.remove(i)[q] == s[q0]);
    }
    assert forall|p: int| 0 <= p < s.remove(i).len() implies key(s.remove(i)[p]) != key(
        s[i],
    ) by {
        let p0: int = if p < i {
            p
        } else {
            p + 1
        };
        assert(s.remove(i)[p] == s[p0]);
    }
}

} // verus!
