//! What the bucket operations amount to for the map as a whole.
//!
//! The map looks a key up in one bucket, the one that its hash selects. The contracts of
//! `EasyMap` speak of that bucket; the laws here say what the operations do to the
//! key-value mapping of the whole map when every key is looked up in a bucket of its own,
//! given by a placement function `place`.
use vstd::prelude::*;

use crate::chain::{
    chain_find, chain_insert, chain_remove, entry_count, keys_unique, lemma_find_after_insert,
    lemma_find_after_remove, lemma_find_entry, lemma_find_some_iff_contains, lemma_insert_keys, lemma_remove_shape,
};

verus! {

/// The mapping that `chains` stands for when each key `k` is looked up in the chain at
/// `place(k)`.
pub open spec fn placed_contents<K, V>(chains: Seq<Seq<(K, V)>>, place: spec_fn(K) -> int) -> Map<
    K,
    V,
> {
    Map::new(
        |k: K| 0 <= place(k) < chains.len() && chain_find(chains[place(k)], k) is Some,
        |k: K| chain_find(chains[place(k)], k).unwrap(),
    )
}

/// Inserting `(k, v)` into the bucket of `k` is inserting `(k, v)` into the mapping.
pub proof fn law_insert_is_map_insert<K, V>(
    chains: Seq<Seq<(K, V)>>,
    place: spec_fn(K) -> int,
    k: K,
    v: V,
)
    requires
        0 <= place(k) < chains.len(),
    ensures
        placed_contents(chains.update(place(k), chain_insert(chains[place(k)], k, v)), place)
            == placed_contents(chains, place).insert(k, v),
{
    let i = place(k);
    let after = chains.update(i, chain_insert(chains[i], k, v));
    assert forall|q: K| 0 <= #[trigger] place(q) < chains.len() implies chain_find(
        after[place(q)],
        q,
    ) == if q == k {
        Some(v)
    } else {
        chain_find(chains[place(q)], q)
    } by {
        if place(q) == i {
            lemma_find_after_insert(chains[i], k, v, q);
        }
    }
    assert(placed_contents(after, place) =~= placed_contents(chains, place).insert(k, v));
}

/// Removing `k` from its bucket, where keys are unique, is removing `k` from the mapping.
pub proof fn law_remove_is_map_remove<K, V>(
    chains: Seq<Seq<(K, V)>>,
    place: spec_fn(K) -> int,
    k: K,
)
    requires
        0 <= place(k) < chains.len(),
        keys_unique(chains[place(k)]),
    ensures
        placed_contents(chains.update(place(k), chain_remove(chains[place(k)], k)), place)
            == placed_contents(chains, place).remove(k),
{
    let i = place(k);
    let after = chains.update(i, chain_remove(chains[i], k));
    assert forall|q: K| 0 <= #[trigger] place(q) < chains.len() implies chain_find(
        after[place(q)],
        q,
    ) == if q == k {
        None
    } else {
        chain_find(chains[place(q)], q)
    } by {
        if place(q) == i {
            lemma_find_after_remove(chains[i], k, q);
        }
    }
    assert(placed_contents(after, place) =~= placed_contents(chains, place).remove(k));
}

/// Looking `k` up in its bucket is looking it up in the mapping: this is what `get`
/// returns, and what `insert` and `remove` hand back.
pub proof fn law_lookup_is_map_lookup<K, V>(
    chains: Seq<Seq<(K, V)>>,
    place: spec_fn(K) -> int,
    k: K,
)
    requires
        0 <= place(k) < chains.len(),
    ensures
        chain_find(chains[place(k)], k) == if placed_contents(chains, place).contains_key(k) {
            Some(placed_contents(chains, place)[k])
        } else {
            None
        },
{
}

/// Iteration hands out as many entries as the buckets hold.
pub proof fn law_entries_are_all_nodes<K, V>(chains: Seq<Seq<(K, V)>>)
    ensures
        chains.flatten().len() == entry_count(chains),
    decreases chains.len(),
{
    if chains.len() > 0 {
        law_entries_are_all_nodes(chains.drop_first());
    }
}


/// Every entry of `chains` sits in the chain that `place` gives for its key.
pub open spec fn is_placed<K, V>(chains: Seq<Seq<(K, V)>>, place: spec_fn(K) -> int) -> bool {
    forall|i: int, j: int|
        0 <= i < chains.len() && 0 <= j < chains[i].len() ==> place(#[trigger] chains[i][j].0)
            == i
}

/// Inserting a key into the chain that `place` gives for it keeps every entry placed.
pub proof fn law_insert_keeps_placement<K, V>(
    chains: Seq<Seq<(K, V)>>,
    place: spec_fn(K) -> int,
    k: K,
    v: V,
)
    requires
        is_placed(chains, place),
        0 <= place(k) < chains.len(),
    ensures
        is_placed(chains.update(place(k), chain_insert(chains[place(k)], k, v)), place),
{
    let i = place(k);
    let after = chains.update(i, chain_insert(chains[i], k, v));
    lemma_insert_keys(chains[i], k, v);
    assert forall|a: int, j: int| 0 <= a < after.len() && 0 <= j < after[a].len() implies place(
        #[trigger] after[a][j].0,
    ) == a by {
        if a == i {
            if after[a][j].0 != k {
                let m = choose|m: int| 0 <= m < chains[i].len() && chains[i][m].0 == after[a][j].0;
                assert(place(chains[i][m].0) == i);
            }
        }
    }
}

/// Removing a key from its chain keeps every entry placed.
pub proof fn law_remove_keeps_placement<K, V>(
    chains: Seq<Seq<(K, V)>>,
    place: spec_fn(K) -> int,
    k: K,
)
    requires
        is_placed(chains, place),
        0 <= place(k) < chains.len(),
    ensures
        is_placed(chains.update(place(k), chain_remove(chains[place(k)], k)), place),
{
    let i = place(k);
    let after = chains.update(i, chain_remove(chains[i], k));
    lemma_remove_shape(chains[i], k);
    assert forall|a: int, j: int| 0 <= a < after.len() && 0 <= j < after[a].len() implies place(
        #[trigger] after[a][j].0,
    ) == a by {
        if a == i {
            let x = after[a][j];
            assert(chain_remove(chains[i], k).contains(x));
            let m = choose|m: int| 0 <= m < chains[i].len() && chains[i][m] == x;
            assert(place(chains[i][m].0) == i);
        }
    }
}

/// Each entry of the concatenated chains is an entry of one of the chains.
proof fn lemma_flatten_member<K, V>(chains: Seq<Seq<(K, V)>>, p: int)
    requires
        0 <= p < chains.flatten().len(),
    ensures
        exists|i: int, j: int|
            0 <= i < chains.len() && 0 <= j < chains[i].len() && chains[i][j]
                == chains.flatten()[p],
    decreases chains.len(),
{
    let rest = chains.drop_first();
    if p < chains[0].len() {
        assert(chains[0][p] == chains.flatten()[p]);
    } else {
        lemma_flatten_member(rest, p - chains[0].len());
        let (i, j) = choose|i: int, j: int|
            0 <= i < rest.len() && 0 <= j < rest[i].len() && rest[i][j] == rest.flatten()[p
                - chains[0].len()];
        assert(chains[i + 1][j] == chains.flatten()[p]);
    }
}

/// Chains placed at `base`, `base + 1`, ... and each with unique keys have unique keys
/// all together.
proof fn lemma_flatten_keys_unique<K, V>(
    chains: Seq<Seq<(K, V)>>,
    place: spec_fn(K) -> int,
    base: int,
)
    requires
        forall|i: int, j: int|
            0 <= i < chains.len() && 0 <= j < chains[i].len() ==> place(
                #[trigger] chains[i][j].0,
            ) == base + i,
        forall|i: int| 0 <= i < chains.len() ==> #[trigger] keys_unique(chains[i]),
    ensures
        keys_unique(chains.flatten()),
        forall|p: int| 0 <= p < chains.flatten().len() ==> place(#[trigger] chains.flatten()[p].0)
            >= base,
    decreases chains.len(),
{
    if chains.len() > 0 {
        let rest = chains.drop_first();
        assert forall|i: int, j: int| 0 <= i < rest.len() && 0 <= j < rest[i].len() implies place(
            #[trigger] rest[i][j].0,
        ) == base + 1 + i by {
            assert(rest[i][j] == chains[i + 1][j]);
        }
        assert forall|i: int| 0 <= i < rest.len() implies #[trigger] keys_unique(rest[i]) by {
            assert(keys_unique(chains[i + 1]));
        }
        lemma_flatten_keys_unique(rest, place, base + 1);
        let a = chains[0];
        let b = rest.flatten();
        let f = chains.flatten();
        assert(f == a + b);
        assert(keys_unique(a));
        assert forall|x: int, y: int| 0 <= x < y < f.len() implies f[x].0 != f[y].0 by {
            if y < a.len() {
                assert(f[x] == a[x] && f[y] == a[y]);
            } else if x >= a.len() {
                assert(f[x] == b[x - a.len()] && f[y] == b[y - a.len()]);
            } else {
                assert(f[x] == a[x]);
                assert(place(a[x].0) == base);
                assert(f[y] == b[y - a.len()]);
                assert(place(b[y - a.len()].0) >= base + 1);
            }
        }
        assert forall|p: int| 0 <= p < f.len() implies place(#[trigger] f[p].0) >= base by {
            if p < a.len() {
                assert(f[p] == a[p]);
            } else {
                assert(f[p] == b[p - a.len()]);
            }
        }
    }
}

/// When every entry sits in the chain of its key and no chain repeats a key, no key
/// occurs twice in the whole iteration.
pub proof fn law_iteration_keys_unique<K, V>(chains: Seq<Seq<(K, V)>>, place: spec_fn(K) -> int)
    requires
        is_placed(chains, place),
        forall|i: int| 0 <= i < chains.len() ==> #[trigger] keys_unique(chains[i]),
    ensures
        keys_unique(chains.flatten()),
{
    lemma_flatten_keys_unique(chains, place, 0);
}

/// When every entry sits in the chain of its key and no chain repeats a key, a lookup of
/// each iterated key in its chain finds the iterated value.
pub proof fn law_iterated_entries_are_found<K, V>(
    chains: Seq<Seq<(K, V)>>,
    place: spec_fn(K) -> int,
)
    requires
        is_placed(chains, place),
        forall|i: int| 0 <= i < chains.len() ==> #[trigger] keys_unique(chains[i]),
    ensures
        forall|p: int|
            0 <= p < chains.flatten().len() ==> {
                let e = #[trigger] chains.flatten()[p];
                &&& 0 <= place(e.0) < chains.len()
                &&& chain_find(chains[place(e.0)], e.0) == Some(e.1)
            },
{
    assert forall|p: int| 0 <= p < chains.flatten().len() implies {
        let e = #[trigger] chains.flatten()[p];
        &&& 0 <= place(e.0) < chains.len()
        &&& chain_find(chains[place(e.0)], e.0) == Some(e.1)
    } by {
        lemma_flatten_member(chains, p);
        let (i, j) = choose|i: int, j: int|
            0 <= i < chains.len() && 0 <= j < chains[i].len() && chains[i][j]
                == chains.flatten()[p];
        assert(place(chains[i][j].0) == i);
        assert(keys_unique(chains[i]));
        lemma_find_entry(chains[i], j);
    }
}


/// Each entry of one of the chains is an entry of the concatenated chains.
proof fn lemma_member_in_flatten<K, V>(chains: Seq<Seq<(K, V)>>, i: int, j: int)
    requires
        0 <= i < chains.len(),
        0 <= j < chains[i].len(),
    ensures
        exists|p: int| 0 <= p < chains.flatten().len() && chains.flatten()[p] == chains[i][j],
    decreases chains.len(),
{
    let f = chains.flatten();
    let rest = chains.drop_first();
    assert(f == chains[0] + rest.flatten());
    if i == 0 {
        assert(f[j] == chains[0][j]);
    } else {
        assert(rest[i - 1] == chains[i]);
        lemma_member_in_flatten(rest, i - 1, j);
        let q = choose|q: int|
            0 <= q < rest.flatten().len() && rest.flatten()[q] == rest[i - 1][j];
        assert(f[chains[0].len() + q] == chains[i][j]);
    }
}

/// When every entry sits in the chain of its key and no chain repeats a key, the iteration
/// hands out as many entries as the mapping has keys.
pub proof fn law_iteration_count_is_map_size<K, V>(
    chains: Seq<Seq<(K, V)>>,
    place: spec_fn(K) -> int,
)
    requires
        is_placed(chains, place),
        forall|i: int| 0 <= i < chains.len() ==> #[trigger] keys_unique(chains[i]),
    ensures
        placed_contents(chains, place).dom().finite(),
        placed_contents(chains, place).dom().len() == chains.flatten().len(),
{
    let f = chains.flatten();
    let keys = f.map_values(|e: (K, V)| e.0);
    law_iteration_keys_unique(chains, place);
    law_iterated_entries_are_found(chains, place);
    assert(keys.no_duplicates()) by {
        assert forall|x: int, y: int| 0 <= x < keys.len() && 0 <= y < keys.len() && x != y implies keys[x]
            != keys[y] by {
            if x < y {
                assert(f[x].0 != f[y].0);
            } else {
                assert(f[y].0 != f[x].0);
            }
        }
    }
    keys.unique_seq_to_set();
    let dom = placed_contents(chains, place).dom();
    assert forall|k: K| dom.contains(k) <==> keys.to_set().contains(k) by {
        if dom.contains(k) {
            let i = place(k);
            lemma_find_some_iff_contains(chains[i], k);
            let j = choose|j: int| 0 <= j < chains[i].len() && #[trigger] chains[i][j].0 == k;
            lemma_member_in_flatten(chains, i, j);
            let p = choose|p: int| 0 <= p < f.len() && f[p] == chains[i][j];
            assert(keys[p] == k);
        }
        if keys.to_set().contains(k) {
            let p = choose|p: int| 0 <= p < keys.len() && keys[p] == k;
            assert(f[p].0 == k);
        }
    }
    assert(dom =~= keys.to_set());
}

} // verus!
