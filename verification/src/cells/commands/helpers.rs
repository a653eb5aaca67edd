//! What a batch of placements or removals amounts to, and why the order in
//! which a batch is worked through chunk by chunk does not show in the result.
use crate::cells::world::Entity;
use vstd::prelude::*;

verus! {

/// The occupancy after the entities of `batch` were placed at their keys, one after the other.
pub open spec fn spawn_all<K>(occupancy: Map<K, Entity>, batch: Seq<(K, Entity)>) -> Map<K, Entity>
    decreases batch.len(),
{
    if batch.len() == 0 {
        occupancy
    } else {
        spawn_all(occupancy, batch.drop_last()).insert(batch.last().0, batch.last().1)
    }
}

/// The entities that were replaced while the entities of `batch` were
/// placed at their keys, one after the other.
pub open spec fn evicted_all<K>(occupancy: Map<K, Entity>, batch: Seq<(K, Entity)>) -> Set<Entity>
    decreases batch.len(),
{
    if batch.len() == 0 {
        Set::empty()
    } else {
        let before = spawn_all(occupancy, batch.drop_last());
        let rest = evicted_all(occupancy, batch.drop_last());
        if before.dom().contains(batch.last().0) {
            rest.insert(before[batch.last().0])
        } else {
            rest
        }
    }
}

/// The occupancy after the keys of `keys` were emptied, one after the other.
pub open spec fn despawn_all<K>(occupancy: Map<K, Entity>, keys: Seq<K>) -> Map<K, Entity>
    decreases keys.len(),
{
    if keys.len() == 0 {
        occupancy
    } else {
        despawn_all(occupancy, keys.drop_last()).remove(keys.last())
    }
}

/// What emptying the key at position `at` of `keys` takes away, when the
/// keys are emptied one after the other: the entity that sits there then.
pub open spec fn taken_at<K>(occupancy: Map<K, Entity>, keys: Seq<K>, at: int) -> Option<Entity> {
    let before = despawn_all(occupancy, keys.take(at));
    if before.dom().contains(keys[at]) {
        Some(before[keys[at]])
    } else {
        None
    }
}

/// The position of the last placement of `batch` at `key`, or -1 if there is none.
pub open spec fn last_at<K>(batch: Seq<(K, Entity)>, key: K) -> int
    decreases batch.len(),
{
    if batch.len() == 0 {
        -1
    } else if batch.last().0 == key {
        batch.len() - 1
    } else {
        last_at(batch.drop_last(), key)
    }
}

/// `last_at` finds the last placement at `key`.
pub proof fn lemma_last_at<K>(batch: Seq<(K, Entity)>, key: K)
    ensures
        -1 <= last_at(batch, key) < batch.len(),
        last_at(batch, key) >= 0 ==> batch[last_at(batch, key)].0 == key,
        forall|j: int| last_at(batch, key) < j < batch.len() ==> (#[trigger] batch[j]).0 != key,
    decreases batch.len(),
{
    if batch.len() > 0 && batch.last().0 != key {
        let rest = batch.drop_last();
        lemma_last_at(rest, key);
        assert forall|j: int| last_at(batch, key) < j < batch.len() implies (#[trigger] batch[j]).0
            != key by {
            if j < rest.len() {
                assert(rest[j] == batch[j]);
            }
        }
    }
}

/// A key holds what was placed there last, or what it held before if nothing was placed there.
pub proof fn lemma_spawn_all_at<K>(occupancy: Map<K, Entity>, batch: Seq<(K, Entity)>, key: K)
    ensures
        spawn_all(occupancy, batch).dom().contains(key) <==> last_at(batch, key) >= 0
            || occupancy.dom().contains(key),
        last_at(batch, key) >= 0 ==> spawn_all(occupancy, batch)[key] == batch[last_at(
            batch,
            key,
        )].1,
        last_at(batch, key) < 0 && occupancy.dom().contains(key) ==> spawn_all(
            occupancy,
            batch,
        )[key] == occupancy[key],
    decreases batch.len(),
{
    if batch.len() > 0 {
        lemma_spawn_all_at(occupancy, batch.drop_last(), key);
        lemma_last_at(batch.drop_last(), key);
    }
}

/// `entity` sat at a key of `batch` before, or was placed by `batch` at a
/// key at which `batch` places again later.
pub open spec fn is_evicted<K>(
    occupancy: Map<K, Entity>,
    batch: Seq<(K, Entity)>,
    entity: Entity,
) -> bool {
    ||| exists|i: int|
        0 <= i < batch.len() && occupancy.dom().contains((#[trigger] batch[i]).0)
            && occupancy[batch[i].0] == entity
    ||| exists|i: int, j: int|
        0 <= i < j < batch.len() && (#[trigger] batch[i]).0 == (#[trigger] batch[j]).0 && batch[i].1
            == entity
}

/// The entities that are replaced are those that sat at a key of the batch
/// and those that the batch itself places and then replaces.
pub proof fn lemma_evicted_all<K>(
    occupancy: Map<K, Entity>,
    batch: Seq<(K, Entity)>,
    entity: Entity,
)
    ensures
        evicted_all(occupancy, batch).contains(entity) <==> is_evicted(occupancy, batch, entity),
    decreases batch.len(),
{
    if batch.len() > 0 {
        let rest = batch.drop_last();
        let n = rest.len() as int;
        let key = batch.last().0;
        lemma_evicted_all(occupancy, rest, entity);
        lemma_spawn_all_at(occupancy, rest, key);
        lemma_last_at(rest, key);
        let before = spawn_all(occupancy, rest);
        let k = last_at(rest, key);
        if evicted_all(occupancy, batch).contains(entity) {
            if is_evicted(occupancy, rest, entity) {
                if exists|i: int|
                    0 <= i < rest.len() && occupancy.dom().contains((#[trigger] rest[i]).0)
                        && occupancy[rest[i].0] == entity {
                    let i = choose|i: int|
                        0 <= i < rest.len() && occupancy.dom().contains((#[trigger] rest[i]).0)
                            && occupancy[rest[i].0] == entity;
                    assert(batch[i] == rest[i]);
                } else {
                    let (i, j) = choose|i: int, j: int|
                        0 <= i < j < rest.len() && (#[trigger] rest[i]).0 == (#[trigger] rest[j]).0
                            && rest[i].1 == entity;
                    assert(batch[i] == rest[i] && batch[j] == rest[j]);
                }
            } else {
                assert(before.dom().contains(key) && before[key] == entity);
                if k >= 0 {
                    assert(batch[k] == rest[k]);
                    assert(batch[k].0 == batch[n].0 && batch[k].1 == entity);
                } else {
                    assert(occupancy.dom().contains(batch[n].0) && occupancy[batch[n].0] == entity);
                }
            }
        }
        if is_evicted(occupancy, batch, entity) {
            if exists|i: int|
                0 <= i < batch.len() && occupancy.dom().contains((#[trigger] batch[i]).0)
                    && occupancy[batch[i].0] == entity {
                let i = choose|i: int|
                    0 <= i < batch.len() && occupancy.dom().contains((#[trigger] batch[i]).0)
                        && occupancy[batch[i].0] == entity;
                if i < n {
                    assert(rest[i] == batch[i]);
                    assert(is_evicted(occupancy, rest, entity));
                } else if k >= 0 {
                    // the key was hit before: what sat there at first was replaced then
                    assert(rest[k].0 == key);
                    assert(occupancy.dom().contains(rest[k].0) && occupancy[rest[k].0] == entity);
                    assert(is_evicted(occupancy, rest, entity));
                }
            } else {
                let (i, j) = choose|i: int, j: int|
                    0 <= i < j < batch.len() && (#[trigger] batch[i]).0 == (#[trigger] batch[j]).0
                        && batch[i].1 == entity;
                if j < n {
                    assert(rest[i] == batch[i] && rest[j] == batch[j]);
                    assert(is_evicted(occupancy, rest, entity));
                } else {
                    assert(rest[i] == batch[i]);
                    assert(i <= k);
                    if i < k {
                        assert(rest[i].0 == rest[k].0 && rest[i].1 == entity);
                        assert(is_evicted(occupancy, rest, entity));
                    }
                }
            }
        }
    }
}

/// `order` lists the position `i`.
pub open spec fn lists(order: Seq<int>, i: int) -> bool {
    exists|p: int| 0 <= p < order.len() && order[p] == i
}

/// `order` lists every position of `keys` once, and positions with the
/// same key in rising order.
pub open spec fn is_stable_order<K>(order: Seq<int>, keys: Seq<K>) -> bool {
    &&& order.len() == keys.len()
    &&& forall|p: int| 0 <= p < order.len() ==> 0 <= #[trigger] order[p] < keys.len()
    &&& forall|p: int, q: int|
        0 <= p < order.len() && 0 <= q < order.len() && p != q ==> #[trigger] order[p]
            != #[trigger] order[q]
    &&& forall|i: int| 0 <= i < keys.len() ==> #[trigger] lists(order, i)
    &&& forall|p: int, q: int|
        0 <= p < order.len() && 0 <= q < order.len() && (#[trigger] order[p]) < (
        #[trigger] order[q]) && keys[order[p]] == keys[order[q]] ==> p < q
}

/// In `order` the positions with one key stand together.
pub open spec fn is_grouped<K>(order: Seq<int>, keys: Seq<K>) -> bool {
    forall|p: int, q: int, r: int|
        0 <= p < q < r < order.len() && keys[#[trigger] order[p]] == keys[#[trigger] order[r]]
            ==> keys[#[trigger] order[q]] == keys[order[p]]
}

/// The items in the order `order`.
pub open spec fn reorder<T>(items: Seq<T>, order: Seq<int>) -> Seq<T> {
    Seq::new(order.len(), |p: int| items[order[p]])
}

/// The keys of a batch.
pub open spec fn keys_of<K>(batch: Seq<(K, Entity)>) -> Seq<K> {
    Seq::new(batch.len(), |i: int| batch[i].0)
}

/// The last placement at a key is the same one in a batch and in the batch
/// worked through in a stable order.
pub proof fn lemma_last_at_reordered<K>(batch: Seq<(K, Entity)>, order: Seq<int>, key: K)
    requires
        is_stable_order(order, keys_of(batch)),
    ensures
        last_at(reorder(batch, order), key) >= 0 <==> last_at(batch, key) >= 0,
        last_at(batch, key) >= 0 ==> order[last_at(reorder(batch, order), key)] == last_at(
            batch,
            key,
        ),
{
    let keys = keys_of(batch);
    let moved = reorder(batch, order);
    lemma_last_at(batch, key);
    lemma_last_at(moved, key);
    let p = last_at(moved, key);
    let i = last_at(batch, key);
    if p >= 0 {
        let at = order[p];
        assert(moved[p] == batch[at]);
        assert(batch[at].0 == key);
        if i < at {
            assert(false);
        }
        if at < i {
            assert(lists(order, i));
            let q = choose|q: int| 0 <= q < order.len() && order[q] == i;
            assert(keys[order[p]] == keys[order[q]]);
            assert(p < q);
            assert(moved[q] == batch[i]);
            assert(false);
        }
    }
    if i >= 0 {
        assert(lists(order, i));
        let q = choose|q: int| 0 <= q < order.len() && order[q] == i;
        assert(moved[q] == batch[i]);
        assert(p >= q);
    }
}

/// Working through a batch in a stable order leaves the same occupancy.
pub proof fn lemma_spawn_all_reordered<K>(
    occupancy: Map<K, Entity>,
    batch: Seq<(K, Entity)>,
    order: Seq<int>,
)
    requires
        is_stable_order(order, keys_of(batch)),
    ensures
        spawn_all(occupancy, reorder(batch, order)) == spawn_all(occupancy, batch),
{
    let moved = reorder(batch, order);
    let left = spawn_all(occupancy, moved);
    let right = spawn_all(occupancy, batch);
    assert forall|key: K| left.dom().contains(key) <==> right.dom().contains(key) by {
        lemma_spawn_all_at(occupancy, moved, key);
        lemma_spawn_all_at(occupancy, batch, key);
        lemma_last_at_reordered(batch, order, key);
    }
    assert forall|key: K| left.dom().contains(key) implies left[key] == right[key] by {
        lemma_spawn_all_at(occupancy, moved, key);
        lemma_spawn_all_at(occupancy, batch, key);
        lemma_last_at_reordered(batch, order, key);
        lemma_last_at(moved, key);
    }
    assert(left =~= right);
}

/// Working through a batch in a stable order replaces the same entities.
pub proof fn lemma_evicted_all_reordered<K>(
    occupancy: Map<K, Entity>,
    batch: Seq<(K, Entity)>,
    order: Seq<int>,
)
    requires
        is_stable_order(order, keys_of(batch)),
    ensures
        evicted_all(occupancy, reorder(batch, order)) == evicted_all(occupancy, batch),
{
    let keys = keys_of(batch);
    let moved = reorder(batch, order);
    assert forall|entity: Entity|
        evicted_all(occupancy, moved).contains(entity) <==> evicted_all(occupancy, batch).contains(
            entity,
        ) by {
        lemma_evicted_all(occupancy, moved, entity);
        lemma_evicted_all(occupancy, batch, entity);
        if is_evicted(occupancy, moved, entity) {
            if exists|p: int|
                0 <= p < moved.len() && occupancy.dom().contains((#[trigger] moved[p]).0)
                    && occupancy[moved[p].0] == entity {
                let p = choose|p: int|
                    0 <= p < moved.len() && occupancy.dom().contains((#[trigger] moved[p]).0)
                        && occupancy[moved[p].0] == entity;
                assert(moved[p] == batch[order[p]]);
            } else {
                let (p, q) = choose|p: int, q: int|
                    0 <= p < q < moved.len() && (#[trigger] moved[p]).0 == (#[trigger] moved[q]).0
                        && moved[p].1 == entity;
                let i = order[p];
                let j = order[q];
                assert(moved[p] == batch[i] && moved[q] == batch[j]);
                assert(keys[order[q]] == keys[order[p]]);
                if j < i {
                    assert(q < p);
                }
                assert(i < j);
            }
        }
        if is_evicted(occupancy, batch, entity) {
            if exists|i: int|
                0 <= i < batch.len() && occupancy.dom().contains((#[trigger] batch[i]).0)
                    && occupancy[batch[i].0] == entity {
                let i = choose|i: int|
                    0 <= i < batch.len() && occupancy.dom().contains((#[trigger] batch[i]).0)
                        && occupancy[batch[i].0] == entity;
                assert(lists(order, i));
                let p = choose|p: int| 0 <= p < order.len() && order[p] == i;
                assert(moved[p] == batch[i]);
            } else {
                let (i, j) = choose|i: int, j: int|
                    0 <= i < j < batch.len() && (#[trigger] batch[i]).0 == (#[trigger] batch[j]).0
                        && batch[i].1 == entity;
                assert(lists(order, i) && lists(order, j));
                let p = choose|p: int| 0 <= p < order.len() && order[p] == i;
                let q = choose|q: int| 0 <= q < order.len() && order[q] == j;
                assert(moved[p] == batch[i] && moved[q] == batch[j]);
                assert(keys[order[p]] == keys[order[q]]);
                assert(p < q);
            }
        }
    }
    assert(evicted_all(occupancy, moved) =~= evicted_all(occupancy, batch));
}

/// An order that is stable for coarse keys is stable for finer keys.
pub proof fn lemma_stable_order_refines<K, F>(order: Seq<int>, coarse: Seq<K>, fine: Seq<F>)
    requires
        is_stable_order(order, coarse),
        fine.len() == coarse.len(),
        forall|i: int, j: int|
            0 <= i < fine.len() && 0 <= j < fine.len() && #[trigger] fine[i] == #[trigger] fine[j]
                ==> coarse[i] == coarse[j],
    ensures
        is_stable_order(order, fine),
{
    assert forall|p: int, q: int|
        0 <= p < order.len() && 0 <= q < order.len() && (#[trigger] order[p]) < (
        #[trigger] order[q]) && fine[order[p]] == fine[order[q]] implies p < q by {
        assert(coarse[order[p]] == coarse[order[q]]);
    }
}

/// A key is occupied after a batch of removals where it was occupied before
/// and is not among the keys of the batch; it then holds what it held.
pub proof fn lemma_despawn_all_at<K>(occupancy: Map<K, Entity>, keys: Seq<K>, key: K)
    ensures
        despawn_all(occupancy, keys).dom().contains(key) <==> occupancy.dom().contains(key)
            && !keys.contains(key),
        despawn_all(occupancy, keys).dom().contains(key) ==> despawn_all(occupancy, keys)[key]
            == occupancy[key],
    decreases keys.len(),
{
    if keys.len() > 0 {
        let rest = keys.drop_last();
        lemma_despawn_all_at(occupancy, rest, key);
        if rest.contains(key) {
            let i = choose|i: int| 0 <= i < rest.len() && rest[i] == key;
            assert(keys[i] == key);
        }
        if keys.contains(key) && keys.last() != key {
            let i = choose|i: int| 0 <= i < keys.len() && keys[i] == key;
            assert(rest[i] == key);
        }
        if keys.last() == key {
            assert(keys[keys.len() - 1] == key);
        }
    }
}

/// A removal takes what sat at its key at first, unless an earlier removal of the batch took it.
pub proof fn lemma_taken_at<K>(occupancy: Map<K, Entity>, keys: Seq<K>, at: int)
    requires
        0 <= at < keys.len(),
    ensures
        taken_at(occupancy, keys, at) == (if keys.take(at).contains(keys[at])
            || !occupancy.dom().contains(keys[at]) {
            None
        } else {
            Some(occupancy[keys[at]])
        }),
{
    lemma_despawn_all_at(occupancy, keys.take(at), keys[at]);
}

/// Working through a batch of removals in a stable order leaves the same occupancy.
pub proof fn lemma_despawn_all_reordered<K>(
    occupancy: Map<K, Entity>,
    keys: Seq<K>,
    order: Seq<int>,
)
    requires
        is_stable_order(order, keys),
    ensures
        despawn_all(occupancy, reorder(keys, order)) == despawn_all(occupancy, keys),
{
    let moved = reorder(keys, order);
    let left = despawn_all(occupancy, moved);
    let right = despawn_all(occupancy, keys);
    assert forall|key: K| moved.contains(key) <==> keys.contains(key) by {
        if moved.contains(key) {
            let p = choose|p: int| 0 <= p < moved.len() && moved[p] == key;
            assert(keys[order[p]] == key);
        }
        if keys.contains(key) {
            let i = choose|i: int| 0 <= i < keys.len() && keys[i] == key;
            assert(lists(order, i));
            let p = choose|p: int| 0 <= p < order.len() && order[p] == i;
            assert(moved[p] == key);
        }
    }
    assert forall|key: K| left.dom().contains(key) <==> right.dom().contains(key) by {
        lemma_despawn_all_at(occupancy, moved, key);
        lemma_despawn_all_at(occupancy, keys, key);
    }
    assert forall|key: K| left.dom().contains(key) implies left[key] == right[key] by {
        lemma_despawn_all_at(occupancy, moved, key);
        lemma_despawn_all_at(occupancy, keys, key);
    }
    assert(left =~= right);
}

/// A removal takes the same entity in a batch and in the batch worked through in a stable order.
pub proof fn lemma_taken_at_reordered<K>(
    occupancy: Map<K, Entity>,
    keys: Seq<K>,
    order: Seq<int>,
    p: int,
)
    requires
        is_stable_order(order, keys),
        0 <= p < order.len(),
    ensures
        taken_at(occupancy, reorder(keys, order), p) == taken_at(occupancy, keys, order[p]),
{
    let moved = reorder(keys, order);
    let at = order[p];
    lemma_taken_at(occupancy, moved, p);
    lemma_taken_at(occupancy, keys, at);
    assert(moved[p] == keys[at]);
    if moved.take(p).contains(moved[p]) {
        let q = choose|q: int| 0 <= q < p && moved.take(p)[q] == moved[p];
        assert(moved[q] == keys[order[q]]);
        assert(order[q] != order[p]);
        if order[p] < order[q] {
            assert(p < q);
        }
        assert(keys.take(at)[order[q]] == keys[at]);
    }
    if keys.take(at).contains(keys[at]) {
        let i = choose|i: int| 0 <= i < at && keys.take(at)[i] == keys[at];
        assert(lists(order, i));
        let q = choose|q: int| 0 <= q < order.len() && order[q] == i;
        assert(keys[order[q]] == keys[order[p]]);
        assert(q < p);
        assert(moved.take(p)[q] == moved[p]);
    }
}

/// What a batch of removals takes away, in the order of the batch: each
/// key with the entity that sat there when the key was emptied.
pub open spec fn taken_all<K>(occupancy: Map<K, Entity>, keys: Seq<K>) -> Seq<(K, Entity)>
    decreases keys.len(),
{
    if keys.len() == 0 {
        Seq::empty()
    } else {
        let rest = taken_all(occupancy, keys.drop_last());
        match taken_at(occupancy, keys, keys.len() - 1) {
            Some(entity) => rest.push((keys.last(), entity)),
            None => rest,
        }
    }
}

/// Every entry of what a batch of removals takes away is a key of the batch
/// at its first mention, with the entity that sat there at first.
pub proof fn lemma_taken_all<K>(occupancy: Map<K, Entity>, keys: Seq<K>, t: int)
    requires
        0 <= t < taken_all(occupancy, keys).len(),
    ensures
        occupancy.dom().contains(taken_all(occupancy, keys)[t].0),
        occupancy[taken_all(occupancy, keys)[t].0] == taken_all(occupancy, keys)[t].1,
        keys.contains(taken_all(occupancy, keys)[t].0),
        forall|u: int|
            0 <= u < taken_all(occupancy, keys).len() && u != t ==> (#[trigger] taken_all(
                occupancy,
                keys,
            )[u]).0 != taken_all(occupancy, keys)[t].0,
    decreases keys.len(),
{
    if keys.len() > 0 {
        let rest_keys = keys.drop_last();
        let rest = taken_all(occupancy, rest_keys);
        let last = keys.len() - 1;
        let all = taken_all(occupancy, keys);
        lemma_taken_at(occupancy, keys, last);
        assert(keys.take(last) =~= rest_keys);
        if t < rest.len() {
            lemma_taken_all(occupancy, rest_keys, t);
            assert(all[t] == rest[t]);
            let i = choose|i: int| 0 <= i < rest_keys.len() && rest_keys[i] == rest[t].0;
            assert(keys[i] == rest[t].0);
            assert forall|u: int| 0 <= u < all.len() && u != t implies (#[trigger] all[u]).0
                != all[t].0 by {
                if u < rest.len() {
                    assert(all[u] == rest[u]);
                } else {
                    assert(all[u].0 == keys.last());
                    assert(!rest_keys.contains(keys.last()));
                }
            }
        } else {
            assert(all[t].0 == keys.last());
            assert(keys[last] == keys.last());
            assert forall|u: int| 0 <= u < all.len() && u != t implies (#[trigger] all[u]).0
                != all[t].0 by {
                lemma_taken_all(occupancy, rest_keys, u);
                assert(all[u] == rest[u]);
            }
        }
    }
}

/// The last position of `keys` that holds `key`, or -1 if there is none.
pub open spec fn last_mention<K>(keys: Seq<K>, key: K) -> int
    decreases keys.len(),
{
    if keys.len() == 0 {
        -1
    } else if keys.last() == key {
        keys.len() - 1
    } else {
        last_mention(keys.drop_last(), key)
    }
}

/// `last_mention` finds the last position that holds `key`.
pub proof fn lemma_last_mention<K>(keys: Seq<K>, key: K)
    ensures
        -1 <= last_mention(keys, key) < keys.len(),
        last_mention(keys, key) >= 0 ==> keys[last_mention(keys, key)] == key,
        forall|j: int| last_mention(keys, key) < j < keys.len() ==> #[trigger] keys[j] != key,
    decreases keys.len(),
{
    if keys.len() > 0 && keys.last() != key {
        let rest = keys.drop_last();
        lemma_last_mention(rest, key);
        assert forall|j: int| last_mention(keys, key) < j < keys.len() implies #[trigger] keys[j]
            != key by {
            if j < rest.len() {
                assert(rest[j] == keys[j]);
            }
        }
    }
}

} // verus!
