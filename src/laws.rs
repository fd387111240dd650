//! Laws that relate several operations of `HashMap`, stated over the map's
//! view (`Map<i32, V>`) as the operations' own contracts describe it.

use vstd::prelude::*;

verus! {

/// Inserting `entries` one after another into a map whose entries are `m`;
/// the entry inserted last is the last of the sequence.
pub open spec fn insert_all<V>(m: Map<i32, V>, entries: Seq<(i32, V)>) -> Map<i32, V>
    decreases entries.len(),
{
    if entries.len() == 0 {
        m
    } else {
        insert_all(m, entries.drop_last()).insert(entries.last().0, entries.last().1)
    }
}

/// The keys of `entries` are pairwise distinct and none of them is in `m`.
pub open spec fn fresh_keys<V>(m: Map<i32, V>, entries: Seq<(i32, V)>) -> bool {
    &&& forall|i: int, j: int|
        0 <= i < j < entries.len() ==> #[trigger] entries[i].0 != #[trigger] entries[j].0
    &&& forall|i: int| 0 <= i < entries.len() ==> !m.contains_key(#[trigger] entries[i].0)
}

/// After `insert(k, v)` succeeds (that is, `k` was absent), `find(k)` gives
/// `v` and `contains_key(k)` is true.
pub proof fn law_insert_then_find<V>(m: Map<i32, V>, k: i32, v: V)
    requires
        !m.contains_key(k),
    ensures
        m.insert(k, v).contains_key(k),
        m.insert(k, v)[k] == v,
{
}

/// `put(k, v1)` then `put(k, v2)`: the second returns `v1`, and `find(k)`
/// then gives `v2`.
pub proof fn law_upsert<V>(m: Map<i32, V>, k: i32, v1: V, v2: V)
    ensures
        m.insert(k, v1).contains_key(k),
        m.insert(k, v1)[k] == v1,
        m.insert(k, v1).insert(k, v2).contains_key(k),
        m.insert(k, v1).insert(k, v2)[k] == v2,
{
}

/// `insert(k, v)` then `remove(k)` returns `v`; the key is then absent, so
/// `find(k)` gives nothing and `contains_key(k)` is false; a later
/// `insert(k, v2)` succeeds and `find(k)` gives `v2`.
pub proof fn law_remove_then_reinsert<V>(m: Map<i32, V>, k: i32, v: V, v2: V)
    requires
        !m.contains_key(k),
    ensures
        m.insert(k, v).contains_key(k),
        m.insert(k, v)[k] == v,
        !m.insert(k, v).remove(k).contains_key(k),
        m.insert(k, v).remove(k).insert(k, v2).contains_key(k),
        m.insert(k, v).remove(k).insert(k, v2)[k] == v2,
{
}

/// Inserting distinct new keys one after another, however often the table
/// grows on the way, leaves every inserted key with its value and every
/// earlier entry as it was.
pub proof fn law_growth_preserves_content<V>(m: Map<i32, V>, entries: Seq<(i32, V)>)
    requires
        fresh_keys(m, entries),
    ensures
        forall|i: int|
            0 <= i < entries.len() ==> insert_all(m, entries).contains_key(#[trigger] entries[i].0)
                && insert_all(m, entries)[entries[i].0] == entries[i].1,
        forall|k: i32|
            m.contains_key(k) ==> #[trigger] insert_all(m, entries).contains_key(k)
                && insert_all(m, entries)[k] == m[k],
    decreases entries.len(),
{
    if entries.len() > 0 {
        let rest = entries.drop_last();
        assert(fresh_keys(m, rest)) by {
            assert forall|i: int, j: int| 0 <= i < j < rest.len() implies #[trigger] rest[i].0
                != #[trigger] rest[j].0 by {
                assert(rest[i] == entries[i] && rest[j] == entries[j]);
            }
            assert forall|i: int| 0 <= i < rest.len() implies !m.contains_key(#[trigger] rest[i].0) by {
                assert(rest[i] == entries[i]);
            }
        }
        law_growth_preserves_content(m, rest);
        let last = entries.last();
        assert forall|i: int| 0 <= i < entries.len() implies insert_all(m, entries).contains_key(
            #[trigger] entries[i].0,
        ) && insert_all(m, entries)[entries[i].0] == entries[i].1 by {
            if i < entries.len() - 1 {
                assert(rest[i] == entries[i]);
                assert(entries[i].0 != last.0);
            }
        }
        assert forall|k: i32| m.contains_key(k) implies #[trigger] insert_all(m, entries).contains_key(k)
            && insert_all(m, entries)[k] == m[k] by {
            assert(k != entries[entries.len() - 1].0);
            assert(insert_all(m, rest).contains_key(k));
        }
    }
}

} // verus!
