use vstd::prelude::*;
use indexmap::IndexMap;
use std::hash::RandomState;

verus! {

/// The outside ordered map; its contents are known to the proofs only
/// through `key_map_entries` and the wrappers below.
#[verifier::external_type_specification]
#[verifier::external_body]
#[verifier::reject_recursive_types(K)]
#[verifier::reject_recursive_types(V)]
#[verifier::reject_recursive_types(S)]
pub struct ExIndexMap<K, V, S>(IndexMap<K, V, S>);

/// The entries of an ordered map from strings to indices, as (key, value)
/// pairs in the map's order.
pub uninterp spec fn key_map_entries(m: IndexMap<String, usize, RandomState>) -> Seq<(Seq<char>, usize)>;

/// The position of the entry with this key, or -1.
pub open spec fn key_index(entries: Seq<(Seq<char>, usize)>, key: Seq<char>) -> int
    decreases entries.len(),
{
    if entries.len() == 0 {
        -1
    } else if entries.last().0 == key {
        entries.len() - 1
    } else {
        key_index(entries.drop_last(), key)
    }
}

/// The entries after inserting a key and a value: an existing key keeps its
/// place and takes the new value; a new key goes last.
pub open spec fn entries_insert(
    entries: Seq<(Seq<char>, usize)>,
    key: Seq<char>,
    value: usize,
) -> Seq<(Seq<char>, usize)> {
    let i = key_index(entries, key);
    if i >= 0 {
        entries.update(i, (entries[i].0, value))
    } else {
        entries.push((key, value))
    }
}

/// The values of the entries, in order.
pub open spec fn entry_values(entries: Seq<(Seq<char>, usize)>) -> Seq<usize> {
    entries.map_values(|e: (Seq<char>, usize)| e.1)
}

/// Creates an empty map (`IndexMap::new`): it has no entries.
#[verifier::external_body]
fn key_map_new() -> (m: IndexMap<String, usize, RandomState>)
    ensures
        key_map_entries(m) == Seq::<(Seq<char>, usize)>::empty(),
{
    IndexMap::new()
}

/// Inserts a key and a value (`IndexMap::insert`): as its documentation says,
/// an equivalent key already in the map stays in its place and its value is
/// replaced; otherwise the pair is inserted last.
#[verifier::external_body]
fn key_map_insert(m: &mut IndexMap<String, usize, RandomState>, key: String, value: usize)
    ensures
        key_map_entries(*final(m)) == entries_insert(key_map_entries(*old(m)), key@, value),
{
    m.insert(key, value);
}

/// The values of the map in its order: `IndexMap::into_values`, which the
/// crate documents as iterating in the map's order, collected into a vector.
#[verifier::external_body]
fn key_map_values(m: IndexMap<String, usize, RandomState>) -> (values: Vec<usize>)
    ensures
        values@ == entry_values(key_map_entries(m)),
{
    m.into_values().collect()
}

/// The text of each string.
pub open spec fn string_views(strings: Seq<String>) -> Seq<Seq<char>> {
    strings.map_values(|s: String| s@)
}

/// The entries built by inserting each key with its position as value.
pub open spec fn axis_entries(keys: Seq<Seq<char>>) -> Seq<(Seq<char>, usize)>
    decreases keys.len(),
{
    if keys.len() == 0 {
        seq![]
    } else {
        entries_insert(axis_entries(keys.drop_last()), keys.last(), (keys.len() - 1) as usize)
    }
}

/// Selects the axes of a polygon.
pub struct Axes;

impl Axes {
    /// Given the key of each edge's normal (its gradient, rounded), keeps one
    /// edge per key: the last edge with that key, at the place of the key's
    /// first occurrence. Returns the positions of the kept edges.
    pub fn unique_edges(keys: &Vec<String>) -> (kept: Vec<usize>)
        ensures
            kept@ == entry_values(axis_entries(string_views(keys@))),
    {
        let mut m = key_map_new();
        let n = keys.len();
        let mut i: usize = 0;
        while i < n
            invariant
                n == keys@.len(),
                i <= n,
                key_map_entries(m) == axis_entries(string_views(keys@.take(i as int))),
            decreases n - i,
        {
            let key = keys[i].clone();
            key_map_insert(&mut m, key, i);
            proof {
                let next = string_views(keys@.take(i + 1));
                assert(next.drop_last() =~= string_views(keys@.take(i as int)));
                assert(next.last() == keys@[i as int]@);
            }
            i += 1;
        }
        assert(keys@.take(n as int) =~= keys@);
        key_map_values(m)
    }
}

proof fn lemma_key_index(entries: Seq<(Seq<char>, usize)>, key: Seq<char>)
    ensures
        -1 <= key_index(entries, key) < entries.len(),
        key_index(entries, key) >= 0 ==> entries[key_index(entries, key)].0 == key,
        key_index(entries, key) < 0 ==> forall|i: int| 0 <= i < entries.len() ==> #[trigger] entries[i].0 != key,
    decreases entries.len(),
{
    if entries.len() > 0 {
        lemma_key_index(entries.drop_last(), key);
        if entries.last().0 != key {
            assert forall|i: int| 0 <= i < entries.len() && key_index(entries, key) < 0 implies #[trigger] entries[i].0 != key by {
                if i < entries.len() - 1 {
                    assert(entries[i] == entries.drop_last()[i]);
                }
            }
            if key_index(entries, key) >= 0 {
                assert(entries[key_index(entries, key)] == entries.drop_last()[key_index(entries, key)]);
            }
        }
    }
}

/// Which edges are kept: each kept edge is a real edge, no two kept edges have
/// the same key, no later edge has the key of a kept edge (the last edge with
/// a key wins), and every key of the polygon is kept.
pub proof fn lemma_unique_edges(keys: Seq<Seq<char>>)
    requires
        keys.len() <= usize::MAX,
    ensures
        ({
            let kept = entry_values(axis_entries(keys));
            &&& kept.len() <= keys.len()
            &&& forall|i: int| 0 <= i < kept.len() ==> #[trigger] kept[i] < keys.len()
            &&& forall|i: int, j: int|
                0 <= i < kept.len() && 0 <= j < kept.len() && i != j ==> keys[#[trigger] kept[i] as int]
                    != keys[#[trigger] kept[j] as int]
            &&& forall|i: int, j: int|
                #![trigger kept[i], keys[j]]
                0 <= i < kept.len() && kept[i] < j < keys.len() ==> keys[j] != keys[kept[i] as int]
            &&& forall|k: int|
                #![trigger keys[k]]
                0 <= k < keys.len() ==> exists|i: int|
                    0 <= i < kept.len() && keys[#[trigger] kept[i] as int] == keys[k]
        }),
{
    lemma_axis_entries(keys);
    let e = axis_entries(keys);
    let kept = entry_values(e);
    assert forall|k: int| #![trigger keys[k]] 0 <= k < keys.len() implies exists|i: int|
        0 <= i < kept.len() && keys[#[trigger] kept[i] as int] == keys[k] by {
        let i = choose|i: int| 0 <= i < e.len() && #[trigger] e[i].0 == keys[k];
        assert(kept[i] == e[i].1);
    }
}

proof fn lemma_axis_entries(keys: Seq<Seq<char>>)
    requires
        keys.len() <= usize::MAX,
    ensures
        ({
            let e = axis_entries(keys);
            &&& e.len() <= keys.len()
            &&& forall|i: int, j: int| 0 <= i < e.len() && 0 <= j < e.len() && i != j ==> #[trigger] e[i].0 != #[trigger] e[j].0
            &&& forall|i: int| 0 <= i < e.len() ==> #[trigger] e[i].1 < keys.len() && keys[e[i].1 as int] == e[i].0
            &&& forall|i: int, j: int| #![trigger e[i], keys[j]] 0 <= i < e.len() && e[i].1 < j < keys.len() ==> keys[j] != e[i].0
            &&& forall|k: int| #![trigger keys[k]] 0 <= k < keys.len() ==> exists|i: int| 0 <= i < e.len() && #[trigger] e[i].0 == keys[k]
        }),
    decreases keys.len(),
{
    if keys.len() > 0 {
        let prev = keys.drop_last();
        let n = keys.len() - 1;
        let key = keys.last();
        lemma_axis_entries(prev);
        let p = axis_entries(prev);
        let e = axis_entries(keys);
        lemma_key_index(p, key);
        let idx = key_index(p, key);
        assert(keys[n] == key);
        assert forall|i: int| 0 <= i < p.len() implies #[trigger] keys[p[i].1 as int] == p[i].0 by {
            assert(prev[p[i].1 as int] == p[i].0);
        }
        if idx >= 0 {
            assert forall|i: int, j: int| 0 <= i < e.len() && 0 <= j < e.len() && i != j implies #[trigger] e[i].0 != #[trigger] e[j].0 by {
                assert(p[i].0 != p[j].0);
            }
            assert forall|i: int, j: int| #![trigger e[i], keys[j]] 0 <= i < e.len() && e[i].1 < j < keys.len() implies keys[j] != e[i].0 by {
                if j < n {
                    assert(prev[j] == keys[j]);
                } else if i != idx {
                    assert(p[i].0 != p[idx].0);
                }
            }
            assert forall|k: int| #![trigger keys[k]] 0 <= k < keys.len() implies exists|i: int| 0 <= i < e.len() && #[trigger] e[i].0 == keys[k] by {
                if k < n {
                    assert(prev[k] == keys[k]);
                    let i = choose|i: int| 0 <= i < p.len() && #[trigger] p[i].0 == prev[k];
                    assert(e[i].0 == keys[k]);
                } else {
                    assert(e[idx].0 == keys[k]);
                }
            }
        } else {
            assert forall|i: int, j: int| 0 <= i < e.len() && 0 <= j < e.len() && i != j implies #[trigger] e[i].0 != #[trigger] e[j].0 by {
                if i < p.len() && j < p.len() {
                    assert(p[i].0 != p[j].0);
                } else if i < p.len() {
                    assert(p[i].0 != key);
                } else {
                    assert(p[j].0 != key);
                }
            }
            assert forall|i: int, j: int| #![trigger e[i], keys[j]] 0 <= i < e.len() && e[i].1 < j < keys.len() implies keys[j] != e[i].0 by {
                if j < n {
                    assert(prev[j] == keys[j]);
                } else {
                    assert(p[i].0 != key);
                }
            }
            assert forall|k: int| #![trigger keys[k]] 0 <= k < keys.len() implies exists|i: int| 0 <= i < e.len() && #[trigger] e[i].0 == keys[k] by {
                if k < n {
                    assert(prev[k] == keys[k]);
                    let i = choose|i: int| 0 <= i < p.len() && #[trigger] p[i].0 == prev[k];
                    assert(e[i].0 == keys[k]);
                } else {
                    assert(e[p.len() as int].0 == keys[k]);
                }
            }
        }
    }
}

} // verus!
