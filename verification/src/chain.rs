//! The mathematical model of one bucket: the sequence of its entries, head first.
use vstd::prelude::*;

verus! {

/// The value of the first entry of `c` whose key is `k`.
pub open spec fn chain_find<K, V>(c: Seq<(K, V)>, k: K) -> Option<V>
    decreases c.len(),
{
    if c.len() == 0 {
        None
    } else if c[0].0 == k {
        Some(c[0].1)
    } else {
        chain_find(c.drop_first(), k)
    }
}

/// `c` with the first entry whose key is `k` replaced by `(k, v)`.
pub open spec fn chain_replace<K, V>(c: Seq<(K, V)>, k: K, v: V) -> Seq<(K, V)>
    decreases c.len(),
{
    if c.len() == 0 {
        c
    } else if c[0].0 == k {
        seq![(k, v)] + c.drop_first()
    } else {
        seq![c[0]] + chain_replace(c.drop_first(), k, v)
    }
}

/// Inserting `(k, v)` into a chain: the entry of `k` is replaced where it stands,
/// and a key that is not there yet is chained in front.
pub open spec fn chain_insert<K, V>(c: Seq<(K, V)>, k: K, v: V) -> Seq<(K, V)> {
    if chain_find(c, k) is Some {
        chain_replace(c, k, v)
    } else {
        seq![(k, v)] + c
    }
}

/// `c` without its first entry whose key is `k`.
pub open spec fn chain_remove<K, V>(c: Seq<(K, V)>, k: K) -> Seq<(K, V)>
    decreases c.len(),
{
    if c.len() == 0 {
        c
    } else if c[0].0 == k {
        c.drop_first()
    } else {
        seq![c[0]] + chain_remove(c.drop_first(), k)
    }
}

/// No key occurs twice in `c`.
pub open spec fn keys_unique<K, V>(c: Seq<(K, V)>) -> bool {
    forall|i: int, j: int| 0 <= i < j < c.len() ==> c[i].0 != c[j].0
}

/// A key is found in a chain exactly when one of its entries has that key.
pub proof fn lemma_find_some_iff_contains<K, V>(c: Seq<(K, V)>, k: K)
    ensures
        chain_find(c, k) is Some <==> exists|i: int| 0 <= i < c.len() && #[trigger] c[i].0 == k,
        chain_find(c, k) is Some ==> exists|i: int|
            0 <= i < c.len() && #[trigger] c[i] == (k, chain_find(c, k).unwrap()),
    decreases c.len(),
{
    if c.len() > 0 {
        lemma_find_some_iff_contains(c.drop_first(), k);
        if c[0].0 != k {
            if exists|i: int| 0 <= i < c.len() && #[trigger] c[i].0 == k {
                let i = choose|i: int| 0 <= i < c.len() && #[trigger] c[i].0 == k;
                assert(c.drop_first()[i - 1].0 == k);
            }
            if chain_find(c, k) is Some {
                let i = choose|i: int|
                    0 <= i < c.drop_first().len() && #[trigger] c.drop_first()[i] == (
                        k,
                        chain_find(c, k).unwrap(),
                    );
                assert(c[i + 1] == (k, chain_find(c, k).unwrap()));
            }
        } else {
            assert(c[0] == (k, chain_find(c, k).unwrap()));
        }
    }
}


/// Replacing keeps the length and the key at every position.
pub proof fn lemma_replace_shape<K, V>(c: Seq<(K, V)>, k: K, v: V)
    ensures
        chain_replace(c, k, v).len() == c.len(),
        forall|i: int| 0 <= i < c.len() ==> #[trigger] chain_replace(c, k, v)[i].0 == c[i].0,
    decreases c.len(),
{
    if c.len() > 0 && c[0].0 != k {
        lemma_replace_shape(c.drop_first(), k, v);
        assert forall|i: int| 0 <= i < c.len() implies #[trigger] chain_replace(c, k, v)[i].0
            == c[i].0 by {
            if i > 0 {
                assert(chain_replace(c, k, v)[i] == chain_replace(c.drop_first(), k, v)[i - 1]);
            }
        }
    }
}

/// What a lookup finds after a replacement.
pub proof fn lemma_find_after_replace<K, V>(c: Seq<(K, V)>, k: K, v: V, q: K)
    requires
        chain_find(c, k) is Some,
    ensures
        chain_find(chain_replace(c, k, v), q) == if q == k {
            Some(v)
        } else {
            chain_find(c, q)
        },
    decreases c.len(),
{
    let r = chain_replace(c, k, v);
    if c[0].0 == k {
        assert(r.drop_first() =~= c.drop_first());
    } else {
        lemma_find_after_replace(c.drop_first(), k, v, q);
        assert(r.drop_first() =~= chain_replace(c.drop_first(), k, v));
    }
}

/// Every entry left after a removal was an entry before it, and exactly one entry goes
/// when the key is there.
pub proof fn lemma_remove_shape<K, V>(c: Seq<(K, V)>, k: K)
    ensures
        forall|x: (K, V)| #[trigger] chain_remove(c, k).contains(x) ==> c.contains(x),
        chain_remove(c, k).len() == if chain_find(c, k) is Some {
            c.len() - 1
        } else {
            c.len() as int
        },
    decreases c.len(),
{
    if c.len() > 0 && c[0].0 != k {
        let rest = c.drop_first();
        lemma_remove_shape(rest, k);
        let r = chain_remove(c, k);
        assert forall|x: (K, V)| #[trigger] r.contains(x) implies c.contains(x) by {
            let i = choose|i: int| 0 <= i < r.len() && r[i] == x;
            if i == 0 {
                assert(c[0] == x);
            } else {
                assert(chain_remove(rest, k)[i - 1] == x);
                assert(chain_remove(rest, k).contains(x));
                let j = choose|j: int| 0 <= j < rest.len() && rest[j] == x;
                assert(c[j + 1] == x);
            }
        }
    } else if c.len() > 0 {
        assert forall|x: (K, V)| #[trigger] chain_remove(c, k).contains(x) implies c.contains(
            x,
        ) by {
            let i = choose|i: int| 0 <= i < c.drop_first().len() && c.drop_first()[i] == x;
            assert(c[i + 1] == x);
        }
    }
}

/// A chain with unique keys keeps them unique when a key is removed.
pub proof fn lemma_remove_keeps_keys_unique<K, V>(c: Seq<(K, V)>, k: K)
    requires
        keys_unique(c),
    ensures
        keys_unique(chain_remove(c, k)),
    decreases c.len(),
{
    if c.len() > 0 && c[0].0 != k {
        let rest = c.drop_first();
        assert(keys_unique(rest)) by {
            assert forall|i: int, j: int| 0 <= i < j < rest.len() implies rest[i].0
                != rest[j].0 by {
                assert(c[i + 1].0 != c[j + 1].0);
            }
        }
        lemma_remove_keeps_keys_unique(rest, k);
        lemma_remove_shape(rest, k);
        let r = chain_remove(c, k);
        let rr = chain_remove(rest, k);
        assert forall|i: int, j: int| 0 <= i < j < r.len() implies r[i].0 != r[j].0 by {
            if i == 0 {
                assert(r[j] == rr[j - 1]);
                assert(rr.contains(rr[j - 1]));
                assert(rest.contains(rr[j - 1]));
                let m = choose|m: int| 0 <= m < rest.len() && rest[m] == rr[j - 1];
                assert(c[m + 1] == rr[j - 1]);
            } else {
                assert(r[i] == rr[i - 1]);
                assert(r[j] == rr[j - 1]);
            }
        }
    } else if c.len() > 0 {
        assert forall|i: int, j: int| 0 <= i < j < c.drop_first().len() implies c.drop_first()[i].0
            != c.drop_first()[j].0 by {
            assert(c[i + 1].0 != c[j + 1].0);
        }
    }
}

/// What a lookup finds after a removal, for a chain with unique keys.
pub proof fn lemma_find_after_remove<K, V>(c: Seq<(K, V)>, k: K, q: K)
    requires
        keys_unique(c),
    ensures
        chain_find(chain_remove(c, k), q) == if q == k {
            None
        } else {
            chain_find(c, q)
        },
    decreases c.len(),
{
    if c.len() > 0 {
        let rest = c.drop_first();
        assert(keys_unique(rest)) by {
            assert forall|i: int, j: int| 0 <= i < j < rest.len() implies rest[i].0
                != rest[j].0 by {
                assert(c[i + 1].0 != c[j + 1].0);
            }
        }
        if c[0].0 == k {
            if q == k {
                lemma_find_some_iff_contains(rest, k);
                if chain_find(rest, k) is Some {
                    let i = choose|i: int| 0 <= i < rest.len() && #[trigger] rest[i].0 == k;
                    assert(c[i + 1].0 == c[0].0);
                }
            }
        } else {
            lemma_find_after_remove(rest, k, q);
            assert(chain_remove(c, k).drop_first() =~= chain_remove(rest, k));
        }
    }
}


/// A chain with unique keys keeps them unique when an entry is inserted.
pub proof fn lemma_insert_keeps_keys_unique<K, V>(c: Seq<(K, V)>, k: K, v: V)
    requires
        keys_unique(c),
    ensures
        keys_unique(chain_insert(c, k, v)),
{
    let r = chain_insert(c, k, v);
    if chain_find(c, k) is Some {
        lemma_replace_shape(c, k, v);
        assert forall|i: int, j: int| 0 <= i < j < r.len() implies r[i].0 != r[j].0 by {
            assert(r[i].0 == c[i].0);
            assert(r[j].0 == c[j].0);
        }
    } else {
        lemma_find_some_iff_contains(c, k);
        assert forall|i: int, j: int| 0 <= i < j < r.len() implies r[i].0 != r[j].0 by {
            assert(r[j] == c[j - 1]);
            if i > 0 {
                assert(r[i] == c[i - 1]);
            }
        }
    }
}

/// What a lookup finds after an insertion.
pub proof fn lemma_find_after_insert<K, V>(c: Seq<(K, V)>, k: K, v: V, q: K)
    ensures
        chain_find(chain_insert(c, k, v), q) == if q == k {
            Some(v)
        } else {
            chain_find(c, q)
        },
{
    if chain_find(c, k) is Some {
        lemma_find_after_replace(c, k, v, q);
    } else {
        assert((seq![(k, v)] + c).drop_first() =~= c);
    }
}

/// The length of a chain after an insertion: one more exactly when the key is new.
pub proof fn lemma_insert_len<K, V>(c: Seq<(K, V)>, k: K, v: V)
    ensures
        chain_insert(c, k, v).len() == if chain_find(c, k) is Some {
            c.len() as int
        } else {
            c.len() + 1int
        },
{
    if chain_find(c, k) is Some {
        lemma_replace_shape(c, k, v);
    }
}

/// Removing a key that was just inserted into a chain without it gives the chain back.
pub proof fn lemma_remove_undoes_fresh_insert<K, V>(c: Seq<(K, V)>, k: K, v: V)
    requires
        chain_find(c, k) is None,
    ensures
        chain_remove(chain_insert(c, k, v), k) == c,
{
    assert((seq![(k, v)] + c).drop_first() =~= c);
}


/// The number of entries over all the chains of `chains`.
pub open spec fn entry_count<K, V>(chains: Seq<Seq<(K, V)>>) -> int
    decreases chains.len(),
{
    if chains.len() == 0 {
        0
    } else {
        chains[0].len() + entry_count(chains.drop_first())
    }
}

/// Replacing one chain changes the entry count by the difference of the two lengths.
pub proof fn lemma_entry_count_update<K, V>(chains: Seq<Seq<(K, V)>>, i: int, c: Seq<(K, V)>)
    requires
        0 <= i < chains.len(),
    ensures
        entry_count(chains.update(i, c)) == entry_count(chains) - chains[i].len() + c.len(),
        entry_count(chains) >= 0,
    decreases chains.len(),
{
    let u = chains.update(i, c);
    if i == 0 {
        assert(u.drop_first() =~= chains.drop_first());
        lemma_entry_count_nonnegative(chains.drop_first());
    } else {
        lemma_entry_count_update(chains.drop_first(), i - 1, c);
        assert(u.drop_first() =~= chains.drop_first().update(i - 1, c));
    }
}

/// An entry count is never negative.
pub proof fn lemma_entry_count_nonnegative<K, V>(chains: Seq<Seq<(K, V)>>)
    ensures
        entry_count(chains) >= 0,
    decreases chains.len(),
{
    if chains.len() > 0 {
        lemma_entry_count_nonnegative(chains.drop_first());
    }
}


/// Removing a key that a chain does not hold leaves the chain as it is.
pub proof fn lemma_remove_absent<K, V>(c: Seq<(K, V)>, k: K)
    requires
        chain_find(c, k) is None,
    ensures
        chain_remove(c, k) == c,
    decreases c.len(),
{
    if c.len() > 0 {
        lemma_remove_absent(c.drop_first(), k);
        assert(seq![c[0]] + c.drop_first() =~= c);
    }
}

/// Removing a key twice from a chain with unique keys has the effect of removing it once.
pub proof fn law_remove_twice_is_remove_once<K, V>(c: Seq<(K, V)>, k: K)
    requires
        keys_unique(c),
    ensures
        chain_find(chain_remove(c, k), k) is None,
        chain_remove(chain_remove(c, k), k) == chain_remove(c, k),
{
    lemma_find_after_remove(c, k, k);
    lemma_remove_absent(chain_remove(c, k), k);
}

/// In a chain with unique keys, each entry is what a lookup of its key finds.
pub proof fn lemma_find_entry<K, V>(c: Seq<(K, V)>, j: int)
    requires
        keys_unique(c),
        0 <= j < c.len(),
    ensures
        chain_find(c, c[j].0) == Some(c[j].1),
    decreases c.len(),
{
    if j > 0 {
        let rest = c.drop_first();
        assert(c[0].0 != c[j].0);
        assert(keys_unique(rest)) by {
            assert forall|a: int, b: int| 0 <= a < b < rest.len() implies rest[a].0
                != rest[b].0 by {
                assert(c[a + 1].0 != c[b + 1].0);
            }
        }
        assert(rest[j - 1] == c[j]);
        lemma_find_entry(rest, j - 1);
    }
}

/// Every key in a chain after an insertion is the inserted key or a key it held before.
pub proof fn lemma_insert_keys<K, V>(c: Seq<(K, V)>, k: K, v: V)
    ensures
        forall|j: int|
            0 <= j < chain_insert(c, k, v).len() ==> #[trigger] chain_insert(c, k, v)[j].0 == k
                || exists|m: int| 0 <= m < c.len() && c[m].0 == chain_insert(c, k, v)[j].0,
{
    let r = chain_insert(c, k, v);
    if chain_find(c, k) is Some {
        lemma_replace_shape(c, k, v);
        assert forall|j: int| 0 <= j < r.len() implies #[trigger] r[j].0 == k || exists|m: int|
            0 <= m < c.len() && c[m].0 == r[j].0 by {
            assert(c[j].0 == r[j].0);
        }
    } else {
        assert forall|j: int| 0 <= j < r.len() implies #[trigger] r[j].0 == k || exists|m: int|
            0 <= m < c.len() && c[m].0 == r[j].0 by {
            if j > 0 {
                assert(c[j - 1] == r[j]);
            }
        }
    }
}

} // verus!
