//! The commands on many cells at once: spawn, despawn, move and swap.
use crate::cells::commands::groups::{
    coord_key, grouped, groups_get, groups_new, groups_of, groups_push, lemma_coord_key,
    lemma_grouped,
};
use crate::cells::commands::helpers::{
    despawn_all, evicted_all, last_mention, lemma_last_mention, lemma_taken_all, spawn_all,
    taken_all,
};
use crate::cells::commands::pairing::{
    bimap_get_by_left, bimap_insert, bimap_new, bimap_pairs, is_paired, lemma_paired_positions,
    paired_positions, pairing, same_key,
};
use crate::cells::commands::{
    all_survive, cell_keys, insert_cell_batch, is_cell_role, placements, take_cells,
};
use crate::cells::coords::coord_ints;
use crate::cells::world::{
    destroy_all, exists_in, gone_from, keeps_undespawnable, spawn_empty, Entity,
};
use crate::cells::{valid_layer, CellMapLabel, CellStorage, IndexView, Role};
use bevy::ecs::world::World;
use std::marker::PhantomData;
use vstd::prelude::*;

verus! {

/// Spawns an entity for each of a list of cell coordinates and places it there.
pub struct SpawnCellBatch<L, const N: usize> {
    pub cell_cs: Vec<[isize; N]>,
    pub label: PhantomData<L>,
}

/// The coordinates of `cell_cs`, each with the entity at the same position of `spawned`.
pub open spec fn paired<const N: usize>(cell_cs: Seq<[isize; N]>, spawned: Seq<Entity>) -> Seq<
    (Seq<int>, Entity),
> {
    Seq::new(cell_cs.len(), |i: int| (coord_ints(cell_cs[i]), spawned[i]))
}

impl<L: CellMapLabel, const N: usize> SpawnCellBatch<L, N> {
    /// What applying the command makes of a world and the index of the layer,
    /// with the entities that it spawns.
    pub open spec fn applied(
        self,
        world_before: World,
        before: CellStorage<L, N>,
        world_after: World,
        after: CellStorage<L, N>,
        spawned: Seq<Entity>,
    ) -> bool {
        &&& after.wf(world_after)
        &&& keeps_undespawnable(world_before, world_after)
        &&& self.cell_cs@.len() == 0 ==> world_after == world_before && after@ == before@
        &&& forall|role: Role|
            !is_cell_role(role) && (#[trigger] before@.holder(role)) is Some ==> after@.holder(role)
                == before@.holder(role)
        &&& forall|role: Role|
            !is_cell_role(role) && before@.holder(role) is None && (#[trigger] after@.holder(
                role,
            )) is Some ==> !exists_in(world_before, after@.holder(role).unwrap())
        &&& spawned.len() == self.cell_cs@.len()
        &&& forall|i: int| 0 <= i < spawned.len()
            ==> !exists_in(world_before, #[trigger] spawned[i])
        &&& forall|i: int, j: int|
            0 <= i < spawned.len() && 0 <= j < spawned.len() && i != j
                ==> #[trigger] spawned[i] != #[trigger] spawned[j]
        &&& after.occupancy() == spawn_all(
            before.occupancy(),
            paired(self.cell_cs@, spawned),
        )
        &&& forall|entity: Entity|
            evicted_all(before.occupancy(), paired(self.cell_cs@, spawned)).contains(
                entity,
            ) ==> gone_from(world_after, entity)
        &&& forall|entity: Entity|
            exists_in(world_before, entity) && !evicted_all(
                before.occupancy(),
                paired(self.cell_cs@, spawned),
            ).contains(entity) ==> #[trigger] exists_in(world_after, entity)
        &&& forall|i: int|
            0 <= i < spawned.len() && !evicted_all(
                before.occupancy(),
                paired(self.cell_cs@, spawned),
            ).contains(spawned[i]) ==> exists_in(world_after, #[trigger] spawned[i])
    }

    /// Spawns one entity for each coordinate of the list, places them as
    /// `insert_cell_batch` does, and returns them in the order of the list.
    pub fn apply(self, world: &mut World, storage: &mut CellStorage<L, N>) -> (spawned: Vec<Entity>)
        requires
            valid_layer::<L, N>(),
            old(storage).wf(*old(world)),
        ensures
            self.applied(*old(world), *old(storage), *final(world), *final(storage), spawned@),
    {
        let ghost before = old(storage)@;
        let n = self.cell_cs.len();
        let mut spawned: Vec<Entity> = Vec::new();
        let mut cells: Vec<([isize; N], Entity)> = Vec::new();
        let mut i: usize = 0;
        while i < n
            invariant
                i <= n,
                n == self.cell_cs.len(),
                *storage == *old(storage),
                i == 0 ==> *world == *old(world),
                before == old(storage)@,
                before.wf(*old(world), L::CHUNK_SIZE, N as nat),
                all_survive(*old(world), *world),
                spawned@.len() == i,
                cells@.len() == i,
                forall|j: int|
                    0 <= j < i ==> (#[trigger] cells@[j]) == (self.cell_cs@[j], spawned@[j]),
                forall|j: int|
                    0 <= j < i ==> exists_in(*world, #[trigger] spawned@[j]) && !exists_in(
                        *old(world),
                        spawned@[j],
                    ),
                forall|j: int, k: int|
                    0 <= j < i && 0 <= k < i && j != k ==> #[trigger] spawned@[j]
                        != #[trigger] spawned@[k],
            decreases n - i,
        {
            let ghost world_then = *world;
            let cell_id = spawn_empty(world);
            proof {
                assert forall|entity: Entity| exists_in(*old(world), entity)
                    implies #[trigger] exists_in(
                    *world,
                    entity,
                ) by {
                    assert(exists_in(world_then, entity));
                }
                assert forall|j: int| 0 <= j < i implies exists_in(*world, #[trigger] spawned@[j])
                    && spawned@[j] != cell_id by {
                    assert(exists_in(world_then, spawned@[j]));
                }
                if exists_in(*old(world), cell_id) {
                    assert(exists_in(world_then, cell_id));
                }
            }
            spawned.push(cell_id);
            cells.push((self.cell_cs[i], cell_id));
            i += 1;
        }
        let ghost world_then = *world;
        proof {
            assert(placements(cells@) =~= paired(self.cell_cs@, spawned@));
            assert forall|role: Role| (#[trigger] before.holder(role)) is Some implies exists_in(
                *world,
                before.holder(role).unwrap(),
            ) by {
                assert(exists_in(*old(world), before.holder(role).unwrap()));
            }
            assert forall|j: int| 0 <= j < n implies !before.tracks((#[trigger] cells@[j]).1) by {
                assert(!exists_in(*old(world), spawned@[j]));
                assert forall|role: Role| before.holder(role) != Some(spawned@[j]) by {
                    if before.holder(role) is Some {
                        assert(exists_in(*old(world), before.holder(role).unwrap()));
                    }
                }
            }
            assert forall|j: int| 0 <= j < n
                implies exists_in(*world, (#[trigger] cells@[j]).1) by {
                assert(exists_in(*world, spawned@[j]));
            }
        }
        insert_cell_batch::<L, N>(world, storage, &cells);
        proof {
            assert forall|j: int|
                0 <= j < spawned@.len() && !evicted_all(
                    before.occupancy(L::CHUNK_SIZE as int),
                    paired(self.cell_cs@, spawned@),
                ).contains(spawned@[j]) implies exists_in(*world, #[trigger] spawned@[j]) by {
                assert(exists_in(world_then, spawned@[j]));
            }
        }
        spawned
    }
}

/// Despawns the entities at a list of cell coordinates.
pub struct DespawnCellBatch<L, const N: usize> {
    pub cell_cs: Vec<[isize; N]>,
    pub label: PhantomData<L>,
}

/// `entity` is among what a batch of removals takes away.
pub open spec fn is_taken(
    occupancy: Map<Seq<int>, Entity>,
    keys: Seq<Seq<int>>,
    entity: Entity,
) -> bool {
    exists|t: int|
        0 <= t < taken_all(occupancy, keys).len() && (#[trigger] taken_all(occupancy, keys)[t]).1
            == entity
}

impl<L: CellMapLabel, const N: usize> DespawnCellBatch<L, N> {
    /// What applying the command makes of a world and the index of the layer.
    pub open spec fn applied(
        self,
        world_before: World,
        before: CellStorage<L, N>,
        world_after: World,
        after: CellStorage<L, N>,
    ) -> bool {
        &&& after.wf(world_after)
        &&& keeps_undespawnable(world_before, world_after)
        &&& after.occupancy() == despawn_all(
            before.occupancy(),
            cell_keys(self.cell_cs@),
        )
        &&& forall|role: Role|
            !is_cell_role(role) ==> (#[trigger] after@.holder(role)) == before@.holder(role)
        &&& forall|entity: Entity|
            is_taken(before.occupancy(), cell_keys(self.cell_cs@), entity) ==> gone_from(
                world_after,
                entity,
            )
        &&& forall|entity: Entity|
            exists_in(world_before, entity) && !is_taken(
                before.occupancy(),
                cell_keys(self.cell_cs@),
                entity,
            ) ==> #[trigger] exists_in(world_after, entity)
    }

    /// Empties the coordinates of the list and despawns the entities that sat there.
    pub fn apply(self, world: &mut World, storage: &mut CellStorage<L, N>)
        requires
            valid_layer::<L, N>(),
            old(storage).wf(*old(world)),
        ensures
            self.applied(*old(world), *old(storage), *final(world), *final(storage)),
    {
        let ghost listed = taken_all(old(storage).occupancy(), cell_keys(self.cell_cs@));
        let taken = take_cells::<L, N>(world, storage, &self.cell_cs);
        let ghost index = storage@;
        let mut doomed: Vec<Entity> = Vec::new();
        let mut t: usize = 0;
        while t < taken.len()
            invariant
                t <= taken.len(),
                doomed@.len() == t,
                forall|u: int| 0 <= u < t ==> #[trigger] doomed@[u] == taken@[u].1,
            decreases taken.len() - t,
        {
            let (_, cell_id) = taken[t];
            doomed.push(cell_id);
            t += 1;
        }
        proof {
            assert forall|u: int| 0 <= u < doomed@.len() implies exists_in(
                *world,
                #[trigger] doomed@[u],
            ) by {
                assert(exists_in(*world, taken@[u].1));
            }
            assert forall|entity: Entity| doomed@.contains(entity) <==> is_taken(
                old(storage).occupancy(),
                cell_keys(self.cell_cs@),
                entity,
            ) by {
                if doomed@.contains(entity) {
                    let u = choose|u: int| 0 <= u < doomed@.len() && doomed@[u] == entity;
                    assert(placements(taken@)[u] == listed[u]);
                    assert(listed[u].1 == entity);
                }
                if is_taken(old(storage).occupancy(), cell_keys(self.cell_cs@), entity) {
                    let u = choose|u: int| 0 <= u < listed.len() && (#[trigger] listed[u]).1
                        == entity;
                    assert(placements(taken@)[u] == listed[u]);
                    assert(doomed@[u] == entity);
                }
            }
        }
        destroy_all(world, &doomed);
        proof {
            assert forall|role: Role| (#[trigger] index.holder(role)) is Some implies exists_in(
                *world,
                index.holder(role).unwrap(),
            ) by {
                let entity = index.holder(role).unwrap();
                if doomed@.contains(entity) {
                    let u = choose|u: int| 0 <= u < doomed@.len() && doomed@[u] == entity;
                    assert(!index.tracks(taken@[u].1));
                }
            }
            assert forall|entity: Entity|
                is_taken(
                    old(storage).occupancy(),
                    cell_keys(self.cell_cs@),
                    entity,
                ) implies gone_from(*world, entity) by {
                assert(doomed@.contains(entity));
                let u = choose|u: int| 0 <= u < doomed@.len() && doomed@[u] == entity;
                assert(gone_from(*world, doomed@[u]));
            }
            assert forall|role: Role| !is_cell_role(role) implies (#[trigger] index.holder(role))
                == old(storage)@.holder(role) by {
                match role {
                    Role::MapEntity => {},
                    Role::ChunkAt(place) => {
                        assert(index.chunk_at(place) == old(storage)@.chunk_at(place));
                    },
                    Role::CellAt(place, slot) => {},
                }
            }
        }
    }
}

/// Taking cells out of an index leaves its map and its chunks as they are.
proof fn lemma_take_keeps_chunks(before: IndexView, after: IndexView)
    requires
        after.map == before.map,
        forall|place: Seq<int>| after.chunk_at(place) == before.chunk_at(place),
    ensures
        forall|role: Role|
            #![trigger after.holder(role)]
            #![trigger before.holder(role)]
            !is_cell_role(role) ==> after.holder(role) == before.holder(role),
{
    assert forall|role: Role|
        #![trigger after.holder(role)]
        #![trigger before.holder(role)]
        !is_cell_role(role) implies after.holder(role) == before.holder(role) by {
        match role {
            Role::MapEntity => {},
            Role::ChunkAt(place) => {
                assert(after.chunk_at(place) == before.chunk_at(place));
            },
            Role::CellAt(place, slot) => {},
        }
    }
}

/// Moves the entities at a list of cell coordinates to other coordinates.
pub struct MoveCellBatch<L, const N: usize> {
    pub cell_cs: Vec<([isize; N], [isize; N])>,
    pub label: PhantomData<L>,
}

/// The coordinates from which the pairs of a batch move.
pub open spec fn sources<const N: usize>(pairs: Seq<([isize; N], [isize; N])>) -> Seq<Seq<int>> {
    Seq::new(pairs.len(), |i: int| coord_ints(pairs[i].0))
}

/// Where the entities that were taken from their coordinates go: each to
/// the second coordinate of the last pair that names its coordinate first.
pub open spec fn destinations<const N: usize>(
    pairs: Seq<([isize; N], [isize; N])>,
    taken: Seq<(Seq<int>, Entity)>,
) -> Seq<(Seq<int>, Entity)> {
    Seq::new(
        taken.len(),
        |t: int| (coord_ints(pairs[last_mention(sources(pairs), taken[t].0)].1), taken[t].1),
    )
}

/// The keys under which the coordinates of a list are looked up.
pub open spec fn lookup_keys<const N: usize>(coords: Seq<[isize; N]>) -> Seq<Seq<isize>> {
    Seq::new(coords.len(), |i: int| coords[i]@)
}

/// The last position of `coords` that holds `wanted`, looked up in
/// `lookup`, which lists the positions of `coords` by coordinate.
fn last_of<const N: usize>(
    lookup: &crate::cells::commands::groups::ChunkGroups,
    coords: &Vec<[isize; N]>,
    wanted: &[isize; N],
) -> (last: usize)
    requires
        groups_of(*lookup) == grouped(lookup_keys(coords@)),
        cell_keys(coords@).contains(coord_ints(*wanted)),
    ensures
        last == last_mention(cell_keys(coords@), coord_ints(*wanted)),
        last < coords@.len(),
{
    let ghost keys = lookup_keys(coords@);
    let ghost cells = cell_keys(coords@);
    let ghost key = coord_ints(*wanted);
    let count = coords.len();
    let found = groups_get(lookup, &coord_key(wanted));
    proof {
        assert(keys.len() == count);
        lemma_grouped(keys, wanted@);
        lemma_last_mention(cells, key);
        let i = choose|i: int| 0 <= i < cells.len() && cells[i] == key;
        lemma_coord_key(coords@[i], *wanted);
        assert(keys[i] == wanted@);
    }
    let list = found.unwrap();
    proof {
        let i = choose|i: int| 0 <= i < cells.len() && cells[i] == key;
        lemma_coord_key(coords@[i], *wanted);
        assert(keys[i] == wanted@);
        let t = choose|t: int| 0 <= t < list@.len() && list@[t] == i;
        assert(list@.len() > 0);
    }
    let last = list[list.len() - 1];
    proof {
        let top = list@.len() - 1;
        let want = last_mention(cells, key);
        assert(keys[last as int] == wanted@);
        lemma_coord_key(coords@[last as int], *wanted);
        assert(cells[last as int] == key);
        assert(last <= want);
        lemma_coord_key(coords@[want], *wanted);
        assert(keys[want] == wanted@);
        let t = choose|t: int| 0 <= t < list@.len() && list@[t] == want;
        if t < top {
            assert(list@[t] < list@[top]);
        }
    }
    last
}

/// A list of the positions of `coords` by coordinate.
fn lookup_of<const N: usize>(coords: &Vec<[isize; N]>) -> (lookup:
    crate::cells::commands::groups::ChunkGroups)
    ensures
        groups_of(lookup) == grouped(lookup_keys(coords@)),
{
    let ghost keys = lookup_keys(coords@);
    let n = coords.len();
    let mut lookup = groups_new();
    let mut i: usize = 0;
    while i < n
        invariant
            i <= n,
            n == coords.len(),
            keys == lookup_keys(coords@),
            groups_of(lookup) == grouped(keys.take(i as int)),
        decreases n - i,
    {
        groups_push(&mut lookup, coord_key(&coords[i]), i);
        proof {
            let next = keys.take(i + 1);
            assert(next.drop_last() =~= keys.take(i as int));
            assert(next.last() == keys[i as int]);
        }
        i += 1;
    }
    assert(keys.take(n as int) =~= keys);
    lookup
}

impl<L: CellMapLabel, const N: usize> MoveCellBatch<L, N> {
    /// What applying the command makes of a world and the index of the layer.
    pub open spec fn applied(
        self,
        world_before: World,
        before: CellStorage<L, N>,
        world_after: World,
        after: CellStorage<L, N>,
    ) -> bool {
        &&& after.wf(world_after)
        &&& keeps_undespawnable(world_before, world_after)
        &&& taken_all(before.occupancy(), sources(self.cell_cs@)).len() == 0 ==> world_after
            == world_before
        &&& forall|role: Role|
            !is_cell_role(role) && (#[trigger] before@.holder(role)) is Some ==> after@.holder(role)
                == before@.holder(role)
        &&& forall|role: Role|
            !is_cell_role(role) && before@.holder(role) is None && (#[trigger] after@.holder(
                role,
            )) is Some ==> !exists_in(world_before, after@.holder(role).unwrap())
        &&& after.occupancy() == spawn_all(
            despawn_all(before.occupancy(), sources(self.cell_cs@)),
            destinations(
                self.cell_cs@,
                taken_all(before.occupancy(), sources(self.cell_cs@)),
            ),
        )
        &&& forall|entity: Entity|
            evicted_all(
                despawn_all(before.occupancy(), sources(self.cell_cs@)),
                destinations(
                    self.cell_cs@,
                    taken_all(before.occupancy(), sources(self.cell_cs@)),
                ),
            ).contains(entity) ==> gone_from(world_after, entity)
        &&& forall|entity: Entity|
            exists_in(world_before, entity) && !evicted_all(
                despawn_all(before.occupancy(), sources(self.cell_cs@)),
                destinations(
                    self.cell_cs@,
                    taken_all(before.occupancy(), sources(self.cell_cs@)),
                ),
            ).contains(entity) ==> #[trigger] exists_in(world_after, entity)
    }

    /// Takes the entities at the first coordinates of the pairs out of the
    /// map, all of them, and then places each at the second coordinate of
    /// its pair, as `insert_cell_batch` does. Where several pairs name one
    /// coordinate first, the last of them says where its entity goes.
    pub fn apply(self, world: &mut World, storage: &mut CellStorage<L, N>)
        requires
            valid_layer::<L, N>(),
            old(storage).wf(*old(world)),
        ensures
            self.applied(*old(world), *old(storage), *final(world), *final(storage)),
    {
        let ghost occupied = old(storage).occupancy();
        let ghost wanted = sources(self.cell_cs@);
        let n = self.cell_cs.len();
        let mut from: Vec<[isize; N]> = Vec::new();
        let mut i: usize = 0;
        while i < n
            invariant
                i <= n,
                n == self.cell_cs.len(),
                from@.len() == i,
                forall|j: int| 0 <= j < i ==> from@[j] == self.cell_cs@[j].0,
            decreases n - i,
        {
            from.push(self.cell_cs[i].0);
            i += 1;
        }
        let lookup = lookup_of(&from);
        proof {
            assert(cell_keys(from@) =~= wanted);
        }

        let removed = take_cells::<L, N>(world, storage, &from);
        let ghost listed = taken_all(occupied, wanted);
        proof {
            lemma_take_keeps_chunks(old(storage)@, storage@);
        }

        let mut moved: Vec<([isize; N], Entity)> = Vec::new();
        let mut t: usize = 0;
        while t < removed.len()
            invariant
                t <= removed.len(),
                n == self.cell_cs.len(),
                from@.len() == n,
                forall|j: int| 0 <= j < n ==> from@[j] == self.cell_cs@[j].0,
                wanted == sources(self.cell_cs@),
                cell_keys(from@) == wanted,
                groups_of(lookup) == grouped(lookup_keys(from@)),
                listed == taken_all(occupied, wanted),
                placements(removed@) == listed,
                moved@.len() == t,
                forall|u: int|
                    0 <= u < t ==> (#[trigger] moved@[u]).1 == removed@[u].1 && coord_ints(
                        moved@[u].0,
                    ) == destinations(self.cell_cs@, listed)[u].0,
            decreases removed.len() - t,
        {
            let (cell_c, cell_id) = removed[t];
            proof {
                lemma_taken_all(occupied, wanted, t as int);
                assert(placements(removed@)[t as int] == listed[t as int]);
            }
            let last = last_of(&lookup, &from, &cell_c);
            moved.push((self.cell_cs[last].1, cell_id));
            t += 1;
        }
        proof {
            assert(placements(moved@) =~= destinations(self.cell_cs@, listed)) by {
                assert forall|u: int| 0 <= u < moved@.len() implies placements(moved@)[u]
                    == destinations(self.cell_cs@, listed)[u] by {
                    assert(placements(removed@)[u] == listed[u]);
                }
            }
        }
        insert_cell_batch::<L, N>(world, storage, &moved);
    }
}

/// Exchanges the entities at the two coordinates of each of a list of pairs.
pub struct SwapCellBatch<L, const N: usize> {
    pub cell_cs: Vec<([isize; N], [isize; N])>,
    pub label: PhantomData<L>,
}

/// The coordinates that the pairs of a batch name second.
pub open spec fn seconds<const N: usize>(pairs: Seq<([isize; N], [isize; N])>) -> Seq<Seq<int>> {
    Seq::new(pairs.len(), |i: int| coord_ints(pairs[i].1))
}

/// The pairs of a batch as pairs of keys.
pub open spec fn key_pairs<const N: usize>(pairs: Seq<([isize; N], [isize; N])>) -> Seq<
    (Seq<isize>, Seq<isize>),
> {
    Seq::new(pairs.len(), |i: int| (pairs[i].0@, pairs[i].1@))
}

/// The first coordinates of the pairs that are held after the pairs were
/// paired up one to one, in the order of the batch.
pub open spec fn paired_firsts<const N: usize>(pairs: Seq<([isize; N], [isize; N])>) -> Seq<
    Seq<int>,
> {
    let kept = paired_positions(key_pairs(pairs), pairs.len() as int);
    Seq::new(kept.len(), |t: int| coord_ints(pairs[kept[t]].0))
}

/// The second coordinates of the pairs that are held after the pairs were
/// paired up one to one, in the order of the batch.
pub open spec fn paired_seconds<const N: usize>(pairs: Seq<([isize; N], [isize; N])>) -> Seq<
    Seq<int>,
> {
    let kept = paired_positions(key_pairs(pairs), pairs.len() as int);
    Seq::new(kept.len(), |t: int| coord_ints(pairs[kept[t]].1))
}

/// Where the entities that were taken from second coordinates go: each to
/// the first coordinate of the last pair that names its coordinate second.
pub open spec fn origins<const N: usize>(
    pairs: Seq<([isize; N], [isize; N])>,
    taken: Seq<(Seq<int>, Entity)>,
) -> Seq<(Seq<int>, Entity)> {
    Seq::new(
        taken.len(),
        |t: int| (coord_ints(pairs[last_mention(seconds(pairs), taken[t].0)].0), taken[t].1),
    )
}

/// The occupancy after the first and then the second coordinates of the paired pairs were emptied.
pub open spec fn swap_emptied<const N: usize>(
    occupancy: Map<Seq<int>, Entity>,
    pairs: Seq<([isize; N], [isize; N])>,
) -> Map<Seq<int>, Entity> {
    despawn_all(despawn_all(occupancy, paired_firsts(pairs)), paired_seconds(pairs))
}

/// The placements of a swap: what was taken from first coordinates goes
/// to the second ones, and then what was taken from second coordinates goes
/// to the first ones.
pub open spec fn swap_moves<const N: usize>(
    occupancy: Map<Seq<int>, Entity>,
    pairs: Seq<([isize; N], [isize; N])>,
) -> Seq<(Seq<int>, Entity)> {
    destinations(pairs, taken_all(occupancy, paired_firsts(pairs))) + origins(
        pairs,
        taken_all(despawn_all(occupancy, paired_firsts(pairs)), paired_seconds(pairs)),
    )
}

impl<L: CellMapLabel, const N: usize> SwapCellBatch<L, N> {
    /// What applying the command makes of a world and the index of the layer.
    pub open spec fn applied(
        self,
        world_before: World,
        before: CellStorage<L, N>,
        world_after: World,
        after: CellStorage<L, N>,
    ) -> bool {
        &&& after.wf(world_after)
        &&& keeps_undespawnable(world_before, world_after)
        &&& swap_moves(before.occupancy(), self.cell_cs@).len() == 0 ==> world_after
            == world_before
        &&& forall|role: Role|
            !is_cell_role(role) && (#[trigger] before@.holder(role)) is Some ==> after@.holder(role)
                == before@.holder(role)
        &&& forall|role: Role|
            !is_cell_role(role) && before@.holder(role) is None && (#[trigger] after@.holder(
                role,
            )) is Some ==> !exists_in(world_before, after@.holder(role).unwrap())
        &&& after.occupancy() == spawn_all(
            swap_emptied(before.occupancy(), self.cell_cs@),
            swap_moves(before.occupancy(), self.cell_cs@),
        )
        &&& forall|entity: Entity|
            evicted_all(
                swap_emptied(before.occupancy(), self.cell_cs@),
                swap_moves(before.occupancy(), self.cell_cs@),
            ).contains(entity) ==> gone_from(world_after, entity)
        &&& forall|entity: Entity|
            exists_in(world_before, entity) && !evicted_all(
                swap_emptied(before.occupancy(), self.cell_cs@),
                swap_moves(before.occupancy(), self.cell_cs@),
            ).contains(entity) ==> #[trigger] exists_in(world_after, entity)
    }

    /// Pairs the coordinates up one to one, a later pair overriding the
    /// earlier ones that share a coordinate on the same side. Then takes
    /// the entities at the first coordinates, then those at the second
    /// coordinates, out of the map, and places what came from a first
    /// coordinate at the second one and what came from a second coordinate
    /// at the first one, as `insert_cell_batch` does.
    pub fn apply(self, world: &mut World, storage: &mut CellStorage<L, N>)
        requires
            valid_layer::<L, N>(),
            old(storage).wf(*old(world)),
        ensures
            self.applied(*old(world), *old(storage), *final(world), *final(storage)),
    {
        let ghost occupied = old(storage).occupancy();
        let ghost keyed = key_pairs(self.cell_cs@);
        let n = self.cell_cs.len();
        let mut firsts: Vec<[isize; N]> = Vec::new();
        let mut others: Vec<[isize; N]> = Vec::new();
        let mut pairs = bimap_new();
        let mut i: usize = 0;
        while i < n
            invariant
                i <= n,
                n == self.cell_cs.len(),
                keyed == key_pairs(self.cell_cs@),
                firsts@.len() == i,
                others@.len() == i,
                forall|j: int| 0 <= j < i ==> firsts@[j] == self.cell_cs@[j].0,
                forall|j: int| 0 <= j < i ==> others@[j] == self.cell_cs@[j].1,
                bimap_pairs(pairs) == pairing(keyed.take(i as int)),
            decreases n - i,
        {
            firsts.push(self.cell_cs[i].0);
            others.push(self.cell_cs[i].1);
            bimap_insert(&mut pairs, coord_key(&self.cell_cs[i].0), coord_key(&self.cell_cs[i].1));
            proof {
                let next = keyed.take(i + 1);
                assert(next.drop_last() =~= keyed.take(i as int));
                assert(next.last() == keyed[i as int]);
            }
            i += 1;
        }
        proof {
            assert(keyed.take(n as int) =~= keyed);
            assert(cell_keys(firsts@) =~= sources(self.cell_cs@));
            assert(cell_keys(others@) =~= seconds(self.cell_cs@));
        }
        let by_first = lookup_of(&firsts);
        let by_second = lookup_of(&others);

        let mut lefts: Vec<[isize; N]> = Vec::new();
        let mut rights: Vec<[isize; N]> = Vec::new();
        let mut i: usize = 0;
        while i < n
            invariant
                i <= n,
                n == self.cell_cs.len(),
                keyed == key_pairs(self.cell_cs@),
                bimap_pairs(pairs) == pairing(keyed),
                lefts@.len() == paired_positions(keyed, i as int).len(),
                rights@.len() == lefts@.len(),
                forall|t: int|
                    0 <= t < lefts@.len() ==> #[trigger] lefts@[t]
                        == self.cell_cs@[paired_positions(
                        keyed,
                        i as int,
                    )[t]].0,
                forall|t: int|
                    0 <= t < rights@.len() ==> #[trigger] rights@[t]
                        == self.cell_cs@[paired_positions(keyed, i as int)[t]].1,
            decreases n - i,
        {
            let kept = match bimap_get_by_left(&pairs, &coord_key(&self.cell_cs[i].0)) {
                Some(right) => same_key(&right, &coord_key(&self.cell_cs[i].1)),
                None => false,
            };
            assert(kept == is_paired(keyed, i as int));
            if kept {
                lefts.push(self.cell_cs[i].0);
                rights.push(self.cell_cs[i].1);
            }
            i += 1;
        }
        let ghost kept = paired_positions(keyed, n as int);
        proof {
            assert(cell_keys(lefts@) =~= paired_firsts(self.cell_cs@));
            assert(cell_keys(rights@) =~= paired_seconds(self.cell_cs@));
        }

        let removed_left = take_cells::<L, N>(world, storage, &lefts);
        let ghost emptied = storage.occupancy();
        let ghost after_left = storage@;
        let removed_right = take_cells::<L, N>(world, storage, &rights);
        proof {
            lemma_take_keeps_chunks(old(storage)@, after_left);
            lemma_take_keeps_chunks(after_left, storage@);
        }
        let ghost listed_left = taken_all(occupied, paired_firsts(self.cell_cs@));
        let ghost listed_right = taken_all(emptied, paired_seconds(self.cell_cs@));

        let mut moved: Vec<([isize; N], Entity)> = Vec::new();
        let mut t: usize = 0;
        while t < removed_left.len()
            invariant
                t <= removed_left.len(),
                n == self.cell_cs.len(),
                firsts@.len() == n,
                forall|j: int| 0 <= j < n ==> firsts@[j] == self.cell_cs@[j].0,
                cell_keys(firsts@) == sources(self.cell_cs@),
                groups_of(by_first) == grouped(lookup_keys(firsts@)),
                kept == paired_positions(keyed, n as int),
                keyed == key_pairs(self.cell_cs@),
                listed_left == taken_all(occupied, paired_firsts(self.cell_cs@)),
                placements(removed_left@) == listed_left,
                moved@.len() == t,
                forall|u: int|
                    0 <= u < t ==> (#[trigger] moved@[u]).1 == removed_left@[u].1 && coord_ints(
                        moved@[u].0,
                    ) == destinations(self.cell_cs@, listed_left)[u].0,
            decreases removed_left.len() - t,
        {
            let (cell_c, cell_id) = removed_left[t];
            proof {
                let lefts_seq = paired_firsts(self.cell_cs@);
                lemma_taken_all(occupied, lefts_seq, t as int);
                assert(placements(removed_left@)[t as int] == listed_left[t as int]);
                let at = choose|at: int| 0 <= at < lefts_seq.len() && lefts_seq[at]
                    == coord_ints(cell_c);
                lemma_paired_positions(keyed, n as int, at);
                assert(sources(self.cell_cs@)[kept[at]] == coord_ints(cell_c));
            }
            let last = last_of(&by_first, &firsts, &cell_c);
            moved.push((self.cell_cs[last].1, cell_id));
            t += 1;
        }
        let ghost half = moved@;
        let mut t: usize = 0;
        while t < removed_right.len()
            invariant
                t <= removed_right.len(),
                n == self.cell_cs.len(),
                others@.len() == n,
                forall|j: int| 0 <= j < n ==> others@[j] == self.cell_cs@[j].1,
                cell_keys(others@) == seconds(self.cell_cs@),
                groups_of(by_second) == grouped(lookup_keys(others@)),
                kept == paired_positions(keyed, n as int),
                keyed == key_pairs(self.cell_cs@),
                listed_right == taken_all(emptied, paired_seconds(self.cell_cs@)),
                placements(removed_right@) == listed_right,
                moved@.len() == half.len() + t,
                half.len() == removed_left@.len(),
                forall|u: int| 0 <= u < half.len() ==> moved@[u] == half[u],
                forall|u: int|
                    0 <= u < t ==> (#[trigger] moved@[half.len() + u]).1 == removed_right@[u].1
                        && coord_ints(moved@[half.len() + u].0) == origins(
                        self.cell_cs@,
                        listed_right,
                    )[u].0,
            decreases removed_right.len() - t,
        {
            let (cell_c, cell_id) = removed_right[t];
            proof {
                let rights_seq = paired_seconds(self.cell_cs@);
                lemma_taken_all(emptied, rights_seq, t as int);
                assert(placements(removed_right@)[t as int] == listed_right[t as int]);
                let at = choose|at: int|
                    0 <= at < rights_seq.len() && rights_seq[at] == coord_ints(cell_c);
                lemma_paired_positions(keyed, n as int, at);
                assert(seconds(self.cell_cs@)[kept[at]] == coord_ints(cell_c));
            }
            let last = last_of(&by_second, &others, &cell_c);
            moved.push((self.cell_cs[last].0, cell_id));
            t += 1;
        }
        proof {
            let moves = swap_moves(occupied, self.cell_cs@);
            assert(placements(moved@) =~= moves) by {
                assert forall|u: int| 0 <= u < moved@.len() implies placements(moved@)[u]
                    == moves[u] by {
                    if u < half.len() {
                        assert(moved@[u] == half[u]);
                        assert(placements(removed_left@)[u] == listed_left[u]);
                    } else {
                        let v = u - half.len();
                        assert(moved@[half.len() + v].1 == removed_right@[v].1);
                        assert(placements(removed_right@)[v] == listed_right[v]);
                    }
                }
            }
            assert forall|u: int| 0 <= u < moved@.len() implies exists_in(
                *world,
                (#[trigger] moved@[u]).1,
            ) && !storage.tracks(moved@[u].1) by {
                if u < half.len() {
                    assert(moved@[u] == half[u]);
                    let entity = removed_left@[u].1;
                    assert(!after_left.tracks(entity));
                    assert forall|role: Role| storage@.holder(role) != Some(entity) by {
                        if storage@.holder(role) is Some {
                            assert(storage@.holder(role) == after_left.holder(role));
                        }
                    }
                } else {
                    let v = u - half.len();
                    assert(moved@[half.len() + v].1 == removed_right@[v].1);
                }
            }
            assert forall|u: int, v: int|
                0 <= u < moved@.len() && 0 <= v < moved@.len() && u != v implies (
            #[trigger] moved@[u]).1 != (#[trigger] moved@[v]).1 by {
                let a = if u < half.len() {
                    removed_left@[u].1
                } else {
                    removed_right@[u - half.len()].1
                };
                let b = if v < half.len() {
                    removed_left@[v].1
                } else {
                    removed_right@[v - half.len()].1
                };
                if u < half.len() {
                    assert(moved@[u] == half[u]);
                } else {
                    assert(moved@[half.len() + (u - half.len())].1 == a);
                }
                if v < half.len() {
                    assert(moved@[v] == half[v]);
                } else {
                    assert(moved@[half.len() + (v - half.len())].1 == b);
                }
                if u < half.len() && v >= half.len() {
                    lemma_taken_all(emptied, paired_seconds(self.cell_cs@), v - half.len());
                    let entry = listed_right[v - half.len()];
                    assert(placements(removed_right@)[v - half.len()] == entry);
                    assert(after_left.occupant(entry.0, L::CHUNK_SIZE as int) == Some(b));
                    assert(!after_left.tracks(a));
                }
                if v < half.len() && u >= half.len() {
                    lemma_taken_all(emptied, paired_seconds(self.cell_cs@), u - half.len());
                    let entry = listed_right[u - half.len()];
                    assert(placements(removed_right@)[u - half.len()] == entry);
                    assert(after_left.occupant(entry.0, L::CHUNK_SIZE as int) == Some(a));
                    assert(!after_left.tracks(b));
                }
            }
        }
        insert_cell_batch::<L, N>(world, storage, &moved);
    }
}

} // verus!
