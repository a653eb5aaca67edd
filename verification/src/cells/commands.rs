//! The operations that change a cell map: placing an entity at a coordinate
//! and taking it away again, one cell or many at a time.
use self::groups::{chunk_keys, group_by, positions};
use self::helpers::{
    despawn_all, evicted_all, is_stable_order, keys_of, lemma_despawn_all_reordered,
    lemma_evicted_all_reordered, lemma_spawn_all_reordered, lemma_stable_order_refines,
    lemma_taken_at_reordered, reorder, spawn_all, taken_all, taken_at,
};
use super::coords::{
    calculate_cell_index, calculate_chunk_coordinate, chunk_of, chunk_slots, coord_ints,
    lemma_chunk_and_index_determine_cell, local_of, slot_count,
};
use super::world::{
    destroy, destroy_all, exists_in, gone_from, keeps_undespawnable, spawn_empty, Entity,
};
use super::{
    same_coord, valid_layer, CellMap, CellMapLabel, CellStorage, Chunk, ChunkCoord, ChunkEntry,
    ChunkView, IndexView, Role,
};
use bevy::ecs::world::World;
use vstd::prelude::*;

pub mod cell_batch;
pub mod cell_single;
pub mod chunk_single;
pub mod groups;
pub mod helpers;
pub mod map;
pub mod pairing;
pub mod queue;

verus! {

/// Every entity of `before` still exists in `after`.
pub open spec fn all_survive(before: World, after: World) -> bool {
    forall|entity: Entity| exists_in(before, entity) ==> #[trigger] exists_in(after, entity)
}

/// Takes the map out of the index, if the layer has one.
pub(crate) fn remove_map<L: CellMapLabel, const N: usize>(storage: &mut CellStorage<L, N>)
    -> (taken:
    Option<(Entity, CellMap<L, N>)>)
    requires
        old(storage).rep_wf(),
    ensures
        final(storage)@ == IndexView::empty(),
        final(storage).rep_wf(),
        match taken {
            Some((map_id, map)) => map.wf() && old(storage)@ == (IndexView {
                map: Some(map_id),
                chunks: map@,
            }),
            None => old(storage)@ == IndexView::empty(),
        },
{
    storage.map.take()
}

/// Takes the map out of the index, or spawns an entity for a new map
/// without chunks if the layer has none.
pub(crate) fn spawn_or_remove_map<L: CellMapLabel, const N: usize>(
    world: &mut World,
    storage: &mut CellStorage<L, N>,
) -> (taken: (Entity, CellMap<L, N>))
    requires
        old(storage).wf(*old(world)),
    ensures
        final(storage)@ == IndexView::empty(),
        final(storage).rep_wf(),
        taken.1.wf(),
        (IndexView { map: Some(taken.0), chunks: taken.1@ }).wf(
            *final(world),
            L::CHUNK_SIZE,
            N as nat,
        ),
        taken.1@ == old(storage)@.chunks,
        all_survive(*old(world), *final(world)),
        match old(storage)@.map {
            Some(map_id) => taken.0 == map_id && *final(world) == *old(world),
            None => !exists_in(*old(world), taken.0),
        },
{
    match remove_map(storage) {
        Some(map_info) => map_info,
        None => {
            let map_id = spawn_empty(world);
            let map = CellMap::<L, N>::new();
            (map_id, map)
        },
    }
}

/// Takes the chunk at `chunk_c` out of the map, if the map has one there.
pub(crate) fn remove_chunk<L: CellMapLabel, const N: usize>(
    map: &mut CellMap<L, N>,
    chunk_c: [isize; N],
) -> (taken: Option<ChunkEntry<N>>)
    requires
        old(map).wf(),
    ensures
        final(map).wf(),
        final(map)@ == old(map)@.remove(coord_ints(chunk_c)),
        match taken {
            Some(entry) => old(map)@.dom().contains(coord_ints(chunk_c)) && entry@
                == old(map)@[coord_ints(chunk_c)] && entry.place() == coord_ints(chunk_c),
            None => !old(map)@.dom().contains(coord_ints(chunk_c)),
        },
{
    let taken = map.take(&chunk_c);
    assert(final(map)@ =~= old(map)@.remove(coord_ints(chunk_c)));
    taken
}

/// Takes the chunk at `chunk_c` out of the map, or spawns an entity for a
/// new chunk of empty slots if the map has none there.
pub(crate) fn spawn_or_remove_chunk<L: CellMapLabel, const N: usize>(
    world: &mut World,
    map: &mut CellMap<L, N>,
    map_id: Entity,
    chunk_c: [isize; N],
) -> (entry: ChunkEntry<N>)
    requires
        valid_layer::<L, N>(),
        old(map).wf(),
        (IndexView { map: Some(map_id), chunks: old(map)@ }).wf(
            *old(world),
            L::CHUNK_SIZE,
            N as nat,
        ),
    ensures
        final(map).wf(),
        final(map)@ == old(map)@.remove(coord_ints(chunk_c)),
        entry.place() == coord_ints(chunk_c),
        (IndexView { map: Some(map_id), chunks: old(map)@.insert(coord_ints(chunk_c), entry@) }).wf(
            *final(world),
            L::CHUNK_SIZE,
            N as nat,
        ),
        all_survive(*old(world), *final(world)),
        old(map)@.dom().contains(coord_ints(chunk_c)) ==> entry@ == old(map)@[coord_ints(chunk_c)]
            && *final(world) == *old(world),
        !old(map)@.dom().contains(coord_ints(chunk_c)) ==> !exists_in(*old(world), entry@.id)
            && entry@.cells == Seq::new(
            slot_count(L::CHUNK_SIZE, N as nat) as nat,
            |i: int| None::<Entity>,
        ),
{
    let ghost before = IndexView { map: Some(map_id), chunks: old(map)@ };
    let ghost place = coord_ints(chunk_c);
    match remove_chunk(map, chunk_c) {
        Some(chunk_info) => {
            assert(old(map)@.insert(place, chunk_info@) =~= old(map)@);
            chunk_info
        },
        None => {
            let chunk_id = spawn_empty(world);
            let chunk = Chunk::new(chunk_slots::<N>(L::CHUNK_SIZE));
            let entry = ChunkEntry { coord: ChunkCoord(chunk_c), id: chunk_id, chunk };
            proof {
                let after = IndexView {
                    map: Some(map_id),
                    chunks: old(map)@.insert(place, entry@),
                };
                assert forall|role: Role| (#[trigger] after.holder(role)) is Some implies {
                    ||| after.holder(role) == before.holder(role)
                    ||| role == Role::ChunkAt(place)
                } by {}
                assert forall|role: Role|
                    (#[trigger] before.holder(role)) is Some implies after.holder(role)
                    == before.holder(role) by {}
                assert forall|a: Role, b: Role|
                    (#[trigger] after.holder(a)) is Some && after.holder(a)
                        == #[trigger] after.holder(b) implies a == b by {
                    if a == Role::ChunkAt(place) {
                        if b != a {
                            assert(before.holder(b) == after.holder(b));
                        }
                    } else {
                        assert(before.holder(a) == after.holder(a));
                        if b != Role::ChunkAt(place) {
                            assert(before.holder(b) == after.holder(b));
                        }
                    }
                }
            }
            entry
        },
    }
}

/// Puts a map back into the index, which holds none.
pub(crate) fn restore_map<L: CellMapLabel, const N: usize>(
    storage: &mut CellStorage<L, N>,
    map_id: Entity,
    map: CellMap<L, N>,
)
    requires
        map.wf(),
    ensures
        final(storage).rep_wf(),
        final(storage)@ == (IndexView { map: Some(map_id), chunks: map@ }),
{
    storage.map = Some((map_id, map));
}

/// The slot of the cell coordinate `cell` in an index of layer `L`.
pub open spec fn cell_role<L: CellMapLabel>(cell: Seq<int>) -> Role {
    Role::CellAt(chunk_of(cell, L::CHUNK_SIZE as int), local_of(cell, L::CHUNK_SIZE as int))
}

/// Two cell coordinates with the same slot are the same coordinate.
pub proof fn lemma_cell_role_injective<L: CellMapLabel>(a: Seq<int>, b: Seq<int>)
    requires
        L::CHUNK_SIZE >= 1,
        cell_role::<L>(a) == cell_role::<L>(b),
    ensures
        a == b,
{
    lemma_chunk_and_index_determine_cell(a, b, L::CHUNK_SIZE as int);
}

/// What placing `cell_id` at the coordinate `cell` makes of an index and
/// its world: the slot of `cell` holds `cell_id`; nothing else that was held
/// changes; a map or a chunk that had to be created is an entity that did not
/// exist before; the entity that sat at `cell` is gone and every other entity
/// is still there.
pub open spec fn cell_inserted<L: CellMapLabel>(
    before: IndexView,
    world_before: World,
    after: IndexView,
    world_after: World,
    cell: Seq<int>,
    cell_id: Entity,
) -> bool {
    let target = cell_role::<L>(cell);
    let place = chunk_of(cell, L::CHUNK_SIZE as int);
    &&& after.holder(target) == Some(cell_id)
    &&& after.map is Some
    &&& after.chunk_at(place) is Some
    &&& forall|role: Role|
        #![trigger before.holder(role)]
        #![trigger after.holder(role)]
        role != target && before.holder(role) is Some ==> after.holder(role) == before.holder(role)
    &&& forall|role: Role|
        role != target && before.holder(role) is None && (#[trigger] after.holder(role)) is Some
            ==> (role == Role::MapEntity || role == Role::ChunkAt(place)) && !exists_in(
            world_before,
            after.holder(role).unwrap(),
        )
    &&& forall|entity: Entity|
        exists_in(world_before, entity) && before.holder(target) != Some(entity)
            ==> #[trigger] exists_in(world_after, entity)
    &&& before.holder(target) is Some ==> gone_from(world_after, before.holder(target).unwrap())
    &&& keeps_undespawnable(world_before, world_after)
}

/// Places `cell_id` at the coordinate `cell_c`.
///
/// Creates the map and the chunk of that coordinate where they are missing.
/// The entity that sat at the coordinate before, if there was one, is
/// despawned. Nothing else changes.
pub fn insert_cell<L: CellMapLabel, const N: usize>(
    world: &mut World,
    storage: &mut CellStorage<L, N>,
    cell_c: [isize; N],
    cell_id: Entity,
)
    requires
        valid_layer::<L, N>(),
        old(storage).wf(*old(world)),
        exists_in(*old(world), cell_id),
        !old(storage).tracks(cell_id),
    ensures
        final(storage).wf(*final(world)),
        final(storage).occupant(coord_ints(cell_c)) == Some(cell_id),
        forall|cell: Seq<int>|
            cell != coord_ints(cell_c) ==> final(storage).occupant(cell) == old(storage).occupant(
                cell,
            ),
        cell_inserted::<L>(
            old(storage)@,
            *old(world),
            final(storage)@,
            *final(world),
            coord_ints(cell_c),
            cell_id,
        ),
{
    let ghost before = old(storage)@;
    let ghost cell = coord_ints(cell_c);
    let ghost side = L::CHUNK_SIZE as int;
    let ghost place = chunk_of(cell, side);
    let ghost slot = local_of(cell, side);

    // Take the map out and get the id to put it back under
    let (map_id, mut map) = spawn_or_remove_map::<L, N>(world, storage);
    let ghost with_map = IndexView { map: Some(map_id), chunks: map@ };
    let ghost world_1 = *world;

    // Take the chunk out and get the id to put it back under
    let chunk_c = calculate_chunk_coordinate(cell_c, L::CHUNK_SIZE);
    let mut chunk_info = spawn_or_remove_chunk::<L, N>(world, &mut map, map_id, chunk_c);
    let ghost with_chunk = IndexView {
        map: Some(map_id),
        chunks: with_map.chunks.insert(place, chunk_info@),
    };
    let ghost world_2 = *world;

    // Insert the cell
    let cell_i = calculate_cell_index(cell_c, L::CHUNK_SIZE);
    assert(with_chunk.chunks.dom().contains(place));
    let old_cell = chunk_info.chunk.replace(cell_i, Some(cell_id));
    if let Some(old_cell_id) = old_cell {
        destroy(world, old_cell_id);
    }
    let ghost after = IndexView {
        map: Some(map_id),
        chunks: with_map.chunks.insert(place, chunk_info@),
    };
    proof {
        let target = Role::CellAt(place, slot);
        assert(with_chunk.holder(target) == old_cell);
        assert forall|role: Role| role != target implies #[trigger] after.holder(role)
            == with_chunk.holder(role) by {}
        assert(after.holder(target) == Some(cell_id));
        assert forall|role: Role| (#[trigger] before.holder(role)) is Some
            implies with_chunk.holder(
            role,
        ) == before.holder(role) by {
            assert(with_map.holder(role) == before.holder(role) || role == Role::MapEntity);
        }
        assert forall|role: Role|
            before.holder(role) is None && (#[trigger] with_chunk.holder(role)) is Some implies {
            ||| role == Role::MapEntity
            ||| role == Role::ChunkAt(place)
        } by {
            if role != Role::MapEntity {
                assert(with_map.holder(role) == before.holder(role));
            }
        }
        // the new cell is held nowhere else
        assert forall|role: Role| role != target implies #[trigger] after.holder(role) != Some(
            cell_id,
        ) by {
            if with_chunk.holder(role) is Some {
                if before.holder(role) is None {
                    assert(!exists_in(*old(world), with_chunk.holder(role).unwrap()));
                }
            }
        }
        assert forall|a: Role, b: Role|
            (#[trigger] after.holder(a)) is Some && after.holder(a) == #[trigger] after.holder(
                b,
            ) implies a == b by {
            if a != target && b != target {
                assert(with_chunk.holder(a) == with_chunk.holder(b));
            }
        }
        assert forall|role: Role| (#[trigger] after.holder(role)) is Some implies exists_in(
            *world,
            after.holder(role).unwrap(),
        ) by {
            if role != target {
                let entity = after.holder(role).unwrap();
                assert(with_chunk.holder(role) == Some(entity));
                assert(exists_in(world_2, entity));
                if let Some(old_cell_id) = old_cell {
                    assert(with_chunk.holder(target) == Some(old_cell_id));
                    assert(entity != old_cell_id);
                }
            }
        }
        assert forall|other: Seq<int>| other != cell
            implies (#[trigger] after.occupant(other, side))
            == before.occupant(other, side) by {
            if cell_role::<L>(other) == cell_role::<L>(cell) {
                lemma_cell_role_injective::<L>(other, cell);
            }
            let role = cell_role::<L>(other);
            if before.holder(role) is None {
                if with_chunk.holder(role) is Some {
                    assert(role == Role::MapEntity || role == Role::ChunkAt(place));
                }
            }
        }
    }

    map.put(chunk_info);
    restore_map(storage, map_id, map);
    proof {
        assert(map@ =~= after.chunks);
        assert(storage@ == after);
    }
}

/// Takes the entity at the coordinate `cell_c` out of the map without
/// despawning it, and returns it. Nothing changes where the coordinate is empty.
pub fn take_cell<L: CellMapLabel, const N: usize>(
    world: &World,
    storage: &mut CellStorage<L, N>,
    cell_c: [isize; N],
) -> (cell: Option<Entity>)
    requires
        valid_layer::<L, N>(),
        old(storage).wf(*world),
    ensures
        final(storage).wf(*world),
        cell == old(storage).occupant(coord_ints(cell_c)),
        final(storage).occupant(coord_ints(cell_c)) is None,
        forall|other: Seq<int>|
            other != coord_ints(cell_c) ==> final(storage).occupant(other) == old(storage).occupant(
                other,
            ),
        forall|role: Role|
            #![trigger final(storage)@.holder(role)]
            #![trigger old(storage)@.holder(role)]
            role != cell_role::<L>(coord_ints(cell_c)) ==> final(storage)@.holder(role)
                == old(storage)@.holder(role),
        cell is None ==> final(storage)@ == old(storage)@,
        cell is Some ==> exists_in(*world, cell.unwrap()) && !final(storage).tracks(cell.unwrap()),
{
    let ghost before = old(storage)@;
    let ghost cell = coord_ints(cell_c);
    let ghost side = L::CHUNK_SIZE as int;
    let ghost place = chunk_of(cell, side);
    let ghost slot = local_of(cell, side);
    let ghost target = Role::CellAt(place, slot);

    // Get the map or return
    let (map_id, mut map) = match remove_map::<L, N>(storage) {
        Some(map_info) => map_info,
        None => {
            return None;
        },
    };

    // Get the chunk or return
    let chunk_c = calculate_chunk_coordinate(cell_c, L::CHUNK_SIZE);
    let mut chunk_info = match remove_chunk::<L, N>(&mut map, chunk_c) {
        Some(chunk_info) => chunk_info,
        None => {
            proof {
                assert(map@ =~= before.chunks);
            }
            restore_map(storage, map_id, map);
            return None;
        },
    };

    // Empty the slot
    let cell_i = calculate_cell_index(cell_c, L::CHUNK_SIZE);
    let taken = chunk_info.chunk.replace(cell_i, None);
    let ghost after = IndexView {
        map: Some(map_id),
        chunks: before.chunks.insert(place, chunk_info@),
    };
    proof {
        assert forall|role: Role| role != target implies #[trigger] after.holder(role)
            == before.holder(role) by {}
        assert(after.holder(target) is None);
        if taken is None {
            assert(chunk_info@.cells =~= before.chunks[place].cells);
            assert(after.chunks =~= before.chunks);
        }
        assert forall|role: Role| (#[trigger] after.holder(role)) is Some implies exists_in(
            *world,
            after.holder(role).unwrap(),
        ) by {
            assert(after.holder(role) == before.holder(role));
        }
        assert forall|a: Role, b: Role|
            (#[trigger] after.holder(a)) is Some && after.holder(a) == #[trigger] after.holder(
                b,
            ) implies a == b by {
            assert(after.holder(a) == before.holder(a));
            assert(after.holder(b) == before.holder(b));
        }
        if let Some(entity) = taken {
            assert(before.holder(target) == Some(entity));
            assert forall|role: Role| after.holder(role) != Some(entity) by {
                if role != target {
                    assert(after.holder(role) == before.holder(role));
                }
            }
        }
        assert forall|other: Seq<int>| other != cell
            implies (#[trigger] after.occupant(other, side))
            == before.occupant(other, side) by {
            if cell_role::<L>(other) == cell_role::<L>(cell) {
                lemma_cell_role_injective::<L>(other, cell);
            }
        }
    }

    map.put(chunk_info);
    restore_map(storage, map_id, map);
    proof {
        assert(map@ =~= after.chunks);
    }
    taken
}

/// The chunks of a map together with the chunk that was taken out of it to be worked on.
pub open spec fn open_chunks<const N: usize>(
    chunks: Map<Seq<int>, ChunkView>,
    current: Option<ChunkEntry<N>>,
) -> Map<Seq<int>, ChunkView> {
    match current {
        Some(entry) => chunks.insert(entry.place(), entry@),
        None => chunks,
    }
}

/// Makes the chunk at `chunk_c` the one that is worked on: puts the one that
/// was worked on back into the map and takes that one out, if the map has it.
pub(crate) fn switch_chunk<L: CellMapLabel, const N: usize>(
    map: &mut CellMap<L, N>,
    current: &mut Option<ChunkEntry<N>>,
    chunk_c: [isize; N],
)
    requires
        old(map).wf(),
        *old(current) matches Some(entry) ==> !old(map)@.dom().contains(entry.place()),
    ensures
        final(map).wf(),
        open_chunks(final(map)@, *final(current)) == open_chunks(old(map)@, *old(current)),
        match *final(current) {
            Some(entry) => entry.place() == coord_ints(chunk_c) && !final(map)@.dom().contains(
                entry.place(),
            ),
            None => !open_chunks(old(map)@, *old(current)).dom().contains(coord_ints(chunk_c)),
        },
{
    let ghost whole = open_chunks(map@, *current);
    let keep = match current {
        Some(entry) => same_coord(&entry.coord.0, &chunk_c),
        None => false,
    };
    if !keep {
        if let Some(entry) = current.take() {
            map.put(entry);
        }
        assert(map@ =~= whole);
        let next = remove_chunk(map, chunk_c);
        proof {
            if next is Some {
                assert(map@.insert(next.unwrap().place(), next.unwrap()@) =~= whole);
            } else {
                assert(map@ =~= whole);
            }
        }
        *current = next;
    }
}

/// The cell coordinates of a batch as sequences of mathematical integers.
pub open spec fn cell_keys<const N: usize>(cells: Seq<[isize; N]>) -> Seq<Seq<int>> {
    Seq::new(cells.len(), |i: int| coord_ints(cells[i]))
}

/// Coordinates and entities as sequences of mathematical integers and entities.
pub open spec fn placements<const N: usize>(cells: Seq<([isize; N], Entity)>) -> Seq<
    (Seq<int>, Entity),
> {
    Seq::new(cells.len(), |i: int| (coord_ints(cells[i].0), cells[i].1))
}

/// Takes the entities at the coordinates of `cells` out of the map without
/// despawning them, and returns each with its coordinate.
///
/// The result is what taking them one after the other with `take_cell`
/// gives: a coordinate that is mentioned twice is emptied at its first
/// mention. The chunks are worked through one at a time.
pub fn take_cells<L: CellMapLabel, const N: usize>(
    world: &World,
    storage: &mut CellStorage<L, N>,
    cells: &Vec<[isize; N]>,
) -> (taken: Vec<([isize; N], Entity)>)
    requires
        valid_layer::<L, N>(),
        old(storage).wf(*world),
    ensures
        final(storage).wf(*world),
        final(storage).occupancy() == despawn_all(old(storage).occupancy(), cell_keys(cells@)),
        placements(taken@) == taken_all(old(storage).occupancy(), cell_keys(cells@)),
        final(storage)@.map == old(storage)@.map,
        forall|place: Seq<int>| final(storage).chunk_at(place) == old(storage).chunk_at(place),
        forall|role: Role|
            (#[trigger] final(storage)@.holder(role)) is Some ==> final(storage)@.holder(role)
                == old(storage)@.holder(role),
        forall|t: int|
            0 <= t < taken@.len() ==> exists_in(*world, (#[trigger] taken@[t]).1)
                && !final(storage).tracks(taken@[t].1),
        forall|t: int, u: int|
            0 <= t < taken@.len() && 0 <= u < taken@.len() && t != u ==> (#[trigger] taken@[t]).1
                != (#[trigger] taken@[u]).1,
{
    let ghost before = old(storage)@;
    let ghost side = L::CHUNK_SIZE as int;
    let ghost occupied = before.occupancy(side);
    let ghost keys = cell_keys(cells@);
    let n = cells.len();

    // Group cells by chunk
    let order = group_by(cells, L::CHUNK_SIZE);
    let ghost turns = positions(order@);
    let ghost moved = reorder(keys, turns);
    proof {
        lemma_stable_order_refines(turns, chunk_keys(cells@, L::CHUNK_SIZE), keys);
    }

    // Remove the map, or return if it doesn't exist
    let (map_id, mut map) = match remove_map::<L, N>(storage) {
        Some(map_info) => map_info,
        None => {
            proof {
                assert(occupied =~= Map::<Seq<int>, Entity>::empty());
                lemma_nothing_to_take(occupied, keys);
            }
            return Vec::new();
        },
    };

    let mut marks: Vec<Option<Entity>> = Vec::new();
    let mut i: usize = 0;
    while i < n
        invariant
            i <= n,
            marks@.len() == i,
            forall|j: int| 0 <= j < i ==> marks@[j] is None,
        decreases n - i,
    {
        marks.push(None);
        i += 1;
    }

    let mut current: Option<ChunkEntry<N>> = None;
    let mut p: usize = 0;
    while p < n
        invariant
            p <= n,
            n == cells.len(),
            valid_layer::<L, N>(),
            side == L::CHUNK_SIZE as int,
            keys == cell_keys(cells@),
            occupied == before.occupancy(side),
            before.wf(*world, L::CHUNK_SIZE, N as nat),
            before.map == Some(map_id),
            turns == positions(order@),
            moved == reorder(keys, turns),
            is_stable_order(turns, keys),
            marks@.len() == n,
            map.wf(),
            current matches Some(entry) ==> !map@.dom().contains(entry.place()),
            open_index(map_id, map@, current).wf(
                *world,
                L::CHUNK_SIZE,
                N as nat,
            ),
            open_index(map_id, map@, current).occupancy(side)
                == despawn_all(occupied, moved.take(p as int)),
            forall|place: Seq<int>|
                open_index(map_id, map@, current).chunk_at(place)
                    == before.chunk_at(place),
            forall|role: Role|
                (#[trigger] open_index(map_id, map@, current).holder(role)) is Some
                    ==> open_index(map_id, map@, current).holder(role) == before.holder(role),
            forall|q: int| 0 <= q < p ==> marks@[#[trigger] turns[q]]
                == taken_at(occupied, moved, q),
            forall|q: int| p <= q < n ==> marks@[#[trigger] turns[q]] is None,
        decreases n - p,
    {
        let at = order[p];
        assert(turns[p as int] == at);
        let cell_c = cells[at];
        let ghost cell = coord_ints(cell_c);
        assert(moved[p as int] == cell);
        let ghost index = open_index(map_id, map@, current);
        let chunk_c = calculate_chunk_coordinate(cell_c, L::CHUNK_SIZE);
        switch_chunk(&mut map, &mut current, chunk_c);
        let ghost place = coord_ints(chunk_c);
        let ghost target = cell_role::<L>(cell);
        let mut mark: Option<Entity> = None;
        if let Some(mut chunk_info) = current.take() {
            assert(index.chunks.dom().contains(place));
            let cell_i = calculate_cell_index(cell_c, L::CHUNK_SIZE);
            mark = chunk_info.chunk.replace(cell_i, None);
            current = Some(chunk_info);
        }
        marks[at] = mark;
        proof {
            let after = open_index(map_id, map@, current);
            assert(mark == index.holder(target));
            assert forall|role: Role| role != target implies #[trigger] after.holder(role)
                == index.holder(role) by {}
            assert(after.holder(target) is None);
            assert forall|a: Role, b: Role|
                (#[trigger] after.holder(a)) is Some && after.holder(a) == #[trigger] after.holder(
                    b,
                ) implies a == b by {
                assert(after.holder(a) == index.holder(a));
                assert(after.holder(b) == index.holder(b));
            }
            assert forall|role: Role| (#[trigger] after.holder(role)) is Some implies exists_in(
                *world,
                after.holder(role).unwrap(),
            ) && after.holder(role) == before.holder(role) by {
                assert(after.holder(role) == index.holder(role));
            }
            assert forall|place: Seq<int>| after.chunk_at(place) == before.chunk_at(place) by {
                assert(after.holder(Role::ChunkAt(place)) == index.holder(Role::ChunkAt(place)));
            }
            assert forall|other: Seq<int>| other != cell implies (#[trigger] after.occupant(
                other,
                side,
            )) == index.occupant(other, side) by {
                if cell_role::<L>(other) == cell_role::<L>(cell) {
                    lemma_cell_role_injective::<L>(other, cell);
                }
            }
            let next = moved.take(p + 1);
            assert(next.drop_last() =~= moved.take(p as int));
            assert(next.last() == cell);
            assert(after.occupancy(side) =~= index.occupancy(side).remove(cell));
            assert(mark == taken_at(occupied, moved, p as int));
            assert forall|q: int| 0 <= q < p + 1 implies marks@[#[trigger] turns[q]] == taken_at(
                occupied,
                moved,
                q,
            ) by {
                if q < p {
                    assert(turns[q] != turns[p as int]);
                }
            }
            assert forall|q: int| p + 1 <= q < n implies marks@[#[trigger] turns[q]] is None by {
                assert(turns[q] != turns[p as int]);
            }
            assert(after.chunks.dom().contains(place) ==> after.chunks[place].cells.len()
                == slot_count(L::CHUNK_SIZE, N as nat));
        }
        p += 1;
    }
    if let Some(chunk_info) = current.take() {
        map.put(chunk_info);
    }
    restore_map(storage, map_id, map);
    let ghost after = storage@;
    proof {
        assert(moved.take(n as int) =~= moved);
        lemma_despawn_all_reordered(occupied, keys, turns);
        assert forall|i: int| 0 <= i < n implies marks@[i] == taken_at(occupied, keys, i) by {
            assert(helpers::lists(turns, i));
            let q = choose|q: int| 0 <= q < turns.len() && turns[q] == i;
            lemma_taken_at_reordered(occupied, keys, turns, q);
        }
    }

    let mut taken: Vec<([isize; N], Entity)> = Vec::new();
    let mut i: usize = 0;
    while i < n
        invariant
            i <= n,
            n == cells.len(),
            marks@.len() == n,
            keys == cell_keys(cells@),
            forall|j: int| 0 <= j < n ==> marks@[j] == taken_at(occupied, keys, j),
            placements(taken@) == taken_all(occupied, keys.take(i as int)),
        decreases n - i,
    {
        let ghost so_far = placements(taken@);
        proof {
            let next = keys.take(i + 1);
            assert(next.drop_last() =~= keys.take(i as int));
            assert(next.take(i as int) =~= keys.take(i as int));
            assert(keys.take(i as int) =~= keys.take(i as int));
            assert(taken_at(occupied, next, i as int) == taken_at(occupied, keys, i as int));
        }
        if let Some(cell_id) = marks[i] {
            taken.push((cells[i], cell_id));
            assert(placements(taken@) =~= so_far.push((coord_ints(cells@[i as int]), cell_id)));
        }
        i += 1;
    }
    proof {
        assert(keys.take(n as int) =~= keys);
        let list = taken_all(occupied, keys);
        assert forall|t: int| 0 <= t < taken@.len() implies exists_in(
            *world,
            (#[trigger] taken@[t]).1,
        ) && !after.tracks(taken@[t].1) by {
            helpers::lemma_taken_all(occupied, keys, t);
            let entry = list[t];
            assert(placements(taken@)[t] == entry);
            let role = cell_role::<L>(entry.0);
            assert(before.holder(role) == Some(entry.1));
            assert forall|other: Role| after.holder(other) != Some(entry.1) by {
                if after.holder(other) is Some {
                    assert(after.holder(other) == before.holder(other));
                    if other == role {
                        helpers::lemma_despawn_all_at(occupied, keys, entry.0);
                        assert(!after.occupancy(side).dom().contains(entry.0));
                    }
                }
            }
        }
        assert forall|t: int, u: int|
            0 <= t < taken@.len() && 0 <= u < taken@.len() && t != u implies (
        #[trigger] taken@[t]).1 != (#[trigger] taken@[u]).1 by {
            helpers::lemma_taken_all(occupied, keys, t);
            helpers::lemma_taken_all(occupied, keys, u);
            assert(placements(taken@)[t] == list[t]);
            assert(placements(taken@)[u] == list[u]);
            assert(list[t].0 != list[u].0);
            let a = cell_role::<L>(list[t].0);
            let b = cell_role::<L>(list[u].0);
            if a == b {
                lemma_cell_role_injective::<L>(list[t].0, list[u].0);
            }
            assert(before.holder(a) == Some(list[t].1));
            assert(before.holder(b) == Some(list[u].1));
        }
    }
    taken
}

/// Nothing is taken from an index in which no coordinate is occupied.
proof fn lemma_nothing_to_take(occupied: Map<Seq<int>, Entity>, keys: Seq<Seq<int>>)
    requires
        occupied == Map::<Seq<int>, Entity>::empty(),
    ensures
        despawn_all(occupied, keys) == occupied,
        taken_all(occupied, keys) == Seq::<(Seq<int>, Entity)>::empty(),
    decreases keys.len(),
{
    if keys.len() > 0 {
        lemma_nothing_to_take(occupied, keys.drop_last());
        helpers::lemma_taken_at(occupied, keys, keys.len() - 1);
        assert(despawn_all(occupied, keys) =~= occupied);
    }
}

/// The index of a map whose entity is `map_id`, with the chunk that is worked on.
pub open spec fn open_index<const N: usize>(
    map_id: Entity,
    chunks: Map<Seq<int>, ChunkView>,
    current: Option<ChunkEntry<N>>,
) -> IndexView {
    IndexView { map: Some(map_id), chunks: open_chunks(chunks, current) }
}

/// `role` is the slot of a cell.
pub open spec fn is_cell_role(role: Role) -> bool {
    role is CellAt
}

/// Places the entities of `cells` at their coordinates.
///
/// The result is what placing them one after the other with `insert_cell`
/// gives: of two entities for one coordinate the later one stays and the
/// earlier one is despawned, as is the entity that sat there before. The
/// map and the chunks that are missing are created first; the chunks are
/// then worked through one at a time. An empty batch changes nothing.
pub fn insert_cell_batch<L: CellMapLabel, const N: usize>(
    world: &mut World,
    storage: &mut CellStorage<L, N>,
    cells: &Vec<([isize; N], Entity)>,
)
    requires
        valid_layer::<L, N>(),
        old(storage).wf(*old(world)),
        forall|i: int|
            0 <= i < cells@.len() ==> exists_in(*old(world), (#[trigger] cells@[i]).1)
                && !old(storage).tracks(cells@[i].1),
        forall|i: int, j: int|
            0 <= i < cells@.len() && 0 <= j < cells@.len() && i != j ==> (#[trigger] cells@[i]).1
                != (#[trigger] cells@[j]).1,
    ensures
        final(storage).wf(*final(world)),
        final(storage).occupancy() == spawn_all(old(storage).occupancy(), placements(cells@)),
        forall|entity: Entity|
            evicted_all(old(storage).occupancy(), placements(cells@)).contains(entity)
                ==> gone_from(*final(world), entity),
        forall|entity: Entity|
            exists_in(*old(world), entity) && !evicted_all(
                old(storage).occupancy(),
                placements(cells@),
            ).contains(entity) ==> #[trigger] exists_in(*final(world), entity),
        keeps_undespawnable(*old(world), *final(world)),
        cells@.len() > 0 ==> final(storage)@.map is Some,
        cells@.len() == 0 ==> *final(world) == *old(world) && final(storage)@ == old(storage)@,
        forall|role: Role|
            !is_cell_role(role) && (#[trigger] old(storage)@.holder(role)) is Some
                ==> final(storage)@.holder(role) == old(storage)@.holder(role),
        forall|role: Role|
            !is_cell_role(role) && old(storage)@.holder(role) is None
                && (#[trigger] final(storage)@.holder(role)) is Some ==> !exists_in(
                *old(world),
                final(storage)@.holder(role).unwrap(),
            ),
{
    let ghost before = old(storage)@;
    let ghost side = L::CHUNK_SIZE as int;
    let ghost occupied = before.occupancy(side);
    let ghost batch = placements(cells@);
    let n = cells.len();
    if n == 0 {
        // nothing to place: neither a map nor a chunk is asked for
        return ;
    }

    // Group the cells by chunk
    let mut coords: Vec<[isize; N]> = Vec::new();
    let mut i: usize = 0;
    while i < n
        invariant
            i <= n,
            n == cells.len(),
            coords@.len() == i,
            forall|j: int| 0 <= j < i ==> coords@[j] == cells@[j].0,
        decreases n - i,
    {
        coords.push(cells[i].0);
        i += 1;
    }
    let order = group_by(&coords, L::CHUNK_SIZE);
    let ghost turns = positions(order@);
    let ghost moved = reorder(batch, turns);
    proof {
        assert(cell_keys(coords@) =~= keys_of(batch));
        lemma_stable_order_refines(turns, chunk_keys(coords@, L::CHUNK_SIZE), keys_of(batch));
    }

    // Remove the map, or spawn an entity to hold the map, then create an empty map
    let (map_id, mut map) = spawn_or_remove_map::<L, N>(world, storage);
    proof {
        let with_map = IndexView { map: Some(map_id), chunks: map@ };
        assert forall|role: Role| role != Role::MapEntity implies #[trigger] with_map.holder(role)
            == before.holder(role) by {}
    }

    // Get the chunks from the map, or spawn the ones that are missing,
    // each when the order comes to the first of its cells
    let mut last_chunk_c: Option<[isize; N]> = None;
    let mut p: usize = 0;
    while p < n
        invariant
            p <= n,
            n == cells.len(),
            coords@.len() == n,
            forall|j: int| 0 <= j < n ==> coords@[j] == cells@[j].0,
            valid_layer::<L, N>(),
            side == L::CHUNK_SIZE as int,
            batch == placements(cells@),
            turns == positions(order@),
            is_stable_order(turns, keys_of(batch)),
            before.wf(*old(world), L::CHUNK_SIZE, N as nat),
            map.wf(),
            (IndexView { map: Some(map_id), chunks: map@ }).wf(*world, L::CHUNK_SIZE, N as nat),
            all_survive(*old(world), *world),
            before.map is Some ==> before.map == Some(map_id),
            before.map is None ==> !exists_in(*old(world), map_id),
            forall|role: Role|
                (#[trigger] before.holder(role)) is Some ==> (IndexView {
                    map: Some(map_id),
                    chunks: map@,
                }).holder(role) == before.holder(role),
            forall|role: Role|
                before.holder(role) is None && (#[trigger] (IndexView {
                    map: Some(map_id),
                    chunks: map@,
                }).holder(role)) is Some ==> !is_cell_role(role) && !exists_in(
                    *old(world),
                    (IndexView { map: Some(map_id), chunks: map@ }).holder(role).unwrap(),
                ),
            forall|q: int|
                0 <= q < p ==> map@.dom().contains(
                    chunk_of(#[trigger] batch[turns[q]].0, side),
                ),
            last_chunk_c matches Some(chunk_c) ==> map@.dom().contains(coord_ints(chunk_c)),
        decreases n - p,
    {
        let at = order[p];
        assert(turns[p as int] == at);
        let chunk_c = calculate_chunk_coordinate(cells[at].0, L::CHUNK_SIZE);
        let ghost place = coord_ints(chunk_c);
        let ghost index = IndexView { map: Some(map_id), chunks: map@ };
        let ghost world_then = *world;
        let known = match last_chunk_c {
            Some(last) => same_coord(&last, &chunk_c),
            None => false,
        };
        if !known {
            let chunk_info = spawn_or_remove_chunk::<L, N>(world, &mut map, map_id, chunk_c);
            map.put(chunk_info);
            assert(map@ =~= index.chunks.insert(place, chunk_info@));
        }
        last_chunk_c = Some(chunk_c);
        proof {
            let after = IndexView { map: Some(map_id), chunks: map@ };
            assert(after.chunks.dom().contains(place));
            assert forall|role: Role| (#[trigger] index.holder(role)) is Some implies after.holder(
                role,
            ) == index.holder(role) by {}
            assert forall|role: Role|
                index.holder(role) is None && (#[trigger] after.holder(role)) is Some implies role
                == Role::ChunkAt(place) && !exists_in(world_then, after.holder(role).unwrap()) by {}
            assert forall|role: Role|
                before.holder(role) is None && (#[trigger] after.holder(role)) is Some
                    implies !is_cell_role(
                role,
            ) && !exists_in(*old(world), after.holder(role).unwrap()) by {
                if index.holder(role) is Some {
                    assert(after.holder(role) == index.holder(role));
                }
            }
            assert forall|q: int| 0 <= q < p + 1 implies map@.dom().contains(
                chunk_of(#[trigger] batch[turns[q]].0, side),
            ) by {
                if q < p {
                    assert(index.chunks.dom().contains(chunk_of(batch[turns[q]].0, side)));
                }
            }
        }
        p += 1;
    }
    let ghost ready = IndexView { map: Some(map_id), chunks: map@ };
    proof {
        assert(ready.occupancy(side) =~= occupied) by {
            assert forall|cell: Seq<int>| ready.occupant(cell, side) == before.occupant(
                cell,
                side,
            ) by {
                let role = cell_role::<L>(cell);
                if before.holder(role) is None && ready.holder(role) is Some {
                    assert(!is_cell_role(role));
                }
            }
        }
        assert forall|i: int| 0 <= i < n implies !ready.tracks((#[trigger] cells@[i]).1) by {
            let entity = cells@[i].1;
            assert forall|role: Role| ready.holder(role) != Some(entity) by {
                if ready.holder(role) is Some && before.holder(role) is None {
                    assert(!exists_in(*old(world), ready.holder(role).unwrap()));
                }
            }
        }
    }

    // Insert the cells into the chunks
    let mut doomed: Vec<Entity> = Vec::new();
    let mut current: Option<ChunkEntry<N>> = None;
    let mut p: usize = 0;
    while p < n
        invariant
            p <= n,
            n == cells.len(),
            valid_layer::<L, N>(),
            side == L::CHUNK_SIZE as int,
            batch == placements(cells@),
            turns == positions(order@),
            moved == reorder(batch, turns),
            is_stable_order(turns, keys_of(batch)),
            forall|i: int|
                0 <= i < n ==> exists_in(*world, (#[trigger] cells@[i]).1) && !ready.tracks(
                    cells@[i].1,
                ),
            forall|i: int, j: int|
                0 <= i < n && 0 <= j < n && i != j ==> (#[trigger] cells@[i]).1
                    != (#[trigger] cells@[j]).1,
            map.wf(),
            current matches Some(entry) ==> !map@.dom().contains(entry.place()),
            open_index(map_id, map@, current).wf(*world, L::CHUNK_SIZE, N as nat),
            open_index(map_id, map@, current).occupancy(side) == spawn_all(
                occupied,
                moved.take(p as int),
            ),
            forall|entity: Entity| #[trigger]
                doomed@.contains(entity) <==> evicted_all(occupied, moved.take(p as int)).contains(
                    entity,
                ),
            forall|entity: Entity| #[trigger]
                doomed@.contains(entity) ==> exists_in(*world, entity) && !open_index(
                    map_id,
                    map@,
                    current,
                ).tracks(entity) && (ready.tracks(entity) || exists|q: int|
                    0 <= q < p && entity == cells@[turns[q]].1),
            forall|role: Role|
                !is_cell_role(role) ==> (#[trigger] open_index(map_id, map@, current).holder(role))
                    == ready.holder(role),
            forall|role: Role|
                (#[trigger] open_index(map_id, map@, current).holder(role)) is Some ==> open_index(
                    map_id,
                    map@,
                    current,
                ).holder(role) == ready.holder(role) || exists|q: int|
                    0 <= q < p && open_index(map_id, map@, current).holder(role) == Some(
                        cells@[turns[q]].1,
                    ),
            forall|q: int|
                0 <= q < n ==> ready.chunks.dom().contains(
                    chunk_of(#[trigger] batch[turns[q]].0, side),
                ),
        decreases n - p,
    {
        let at = order[p];
        assert(turns[p as int] == at);
        let cell_c = cells[at].0;
        let cell_id = cells[at].1;
        let ghost cell = coord_ints(cell_c);
        assert(moved[p as int] == (cell, cell_id));
        assert(batch[turns[p as int]].0 == cell);
        let ghost index = open_index(map_id, map@, current);
        let ghost target = cell_role::<L>(cell);
        let ghost so_far = doomed@;
        let chunk_c = calculate_chunk_coordinate(cell_c, L::CHUNK_SIZE);
        let ghost place = coord_ints(chunk_c);
        proof {
            assert(ready.holder(Role::ChunkAt(place)) is Some);
            assert(index.holder(Role::ChunkAt(place)) is Some);
            assert forall|role: Role| index.holder(role) != Some(cell_id) by {
                if index.holder(role) is Some {
                    if index.holder(role) != ready.holder(role) {
                        let q = choose|q: int|
                            0 <= q < p && index.holder(role) == Some(cells@[turns[q]].1);
                        assert(turns[q] != turns[p as int]);
                    }
                }
            }
        }
        switch_chunk(&mut map, &mut current, chunk_c);
        let mut chunk_info = current.take().unwrap();
        let cell_i = calculate_cell_index(cell_c, L::CHUNK_SIZE);
        let old_cell = chunk_info.chunk.replace(cell_i, Some(cell_id));
        if let Some(old_cell_id) = old_cell {
            doomed.push(old_cell_id);
        }
        current = Some(chunk_info);
        proof {
            let after = open_index(map_id, map@, current);
            assert(old_cell == index.holder(target));
            assert forall|role: Role| role != target implies #[trigger] after.holder(role)
                == index.holder(role) by {}
            assert(after.holder(target) == Some(cell_id));
            assert forall|a: Role, b: Role|
                (#[trigger] after.holder(a)) is Some && after.holder(a) == #[trigger] after.holder(
                    b,
                ) implies a == b by {
                if a != target && b != target {
                    assert(index.holder(a) == index.holder(b));
                }
            }
            assert forall|role: Role| (#[trigger] after.holder(role)) is Some implies exists_in(
                *world,
                after.holder(role).unwrap(),
            ) by {
                if role != target {
                    assert(after.holder(role) == index.holder(role));
                }
            }
            assert forall|other: Seq<int>| other != cell implies (#[trigger] after.occupant(
                other,
                side,
            )) == index.occupant(other, side) by {
                if cell_role::<L>(other) == cell_role::<L>(cell) {
                    lemma_cell_role_injective::<L>(other, cell);
                }
            }
            let next = moved.take(p + 1);
            assert(next.drop_last() =~= moved.take(p as int));
            assert(next.last() == (cell, cell_id));
            assert(after.occupancy(side) =~= index.occupancy(side).insert(cell, cell_id));
            assert(index.occupancy(side).dom().contains(cell) <==> old_cell is Some);
            assert forall|entity: Entity| #[trigger]
                doomed@.contains(entity) <==> evicted_all(occupied, next).contains(entity) by {
                if let Some(old_cell_id) = old_cell {
                    crate::cells::lemma_push_contains(so_far, old_cell_id, entity);
                    assert(index.occupancy(side)[cell] == old_cell_id);
                }
            }
            assert forall|entity: Entity| #[trigger] doomed@.contains(entity) implies exists_in(
                *world,
                entity,
            ) && !after.tracks(entity) && (ready.tracks(entity) || exists|q: int|
                0 <= q < p + 1 && entity == cells@[turns[q]].1) by {
                if let Some(old_cell_id) = old_cell {
                    crate::cells::lemma_push_contains(so_far, old_cell_id, entity);
                }
                if so_far.contains(entity) {
                    if !ready.tracks(entity) {
                        let q = choose|q: int| 0 <= q < p && entity == cells@[turns[q]].1;
                        assert(0 <= q < p + 1 && entity == cells@[turns[q]].1);
                        assert(turns[q] != turns[p as int]);
                    }
                    assert(entity != cell_id);
                    assert forall|role: Role| after.holder(role) != Some(entity) by {
                        if role != target {
                            assert(after.holder(role) == index.holder(role));
                        }
                    }
                } else {
                    assert(old_cell == Some(entity));
                    assert(index.holder(target) == Some(entity));
                    assert forall|role: Role| after.holder(role) != Some(entity) by {
                        if role != target {
                            assert(after.holder(role) == index.holder(role));
                        }
                    }
                    if index.holder(target) != ready.holder(target) {
                        let q = choose|q: int|
                            0 <= q < p && index.holder(target) == Some(cells@[turns[q]].1);
                        assert(0 <= q < p + 1 && entity == cells@[turns[q]].1);
                    } else {
                        assert(ready.holder(target) == Some(entity));
                    }
                }
            }
            assert forall|role: Role| (#[trigger] after.holder(role)) is Some implies after.holder(
                role,
            ) == ready.holder(role) || exists|q: int|
                0 <= q < p + 1 && after.holder(role) == Some(cells@[turns[q]].1) by {
                if role == target {
                    assert(0 <= p < p + 1 && after.holder(role) == Some(cells@[turns[p as int]].1));
                } else {
                    assert(after.holder(role) == index.holder(role));
                    if index.holder(role) != ready.holder(role) {
                        let q = choose|q: int|
                            0 <= q < p && index.holder(role) == Some(cells@[turns[q]].1);
                        assert(0 <= q < p + 1 && after.holder(role) == Some(cells@[turns[q]].1));
                    }
                }
            }
        }
        p += 1;
    }
    if let Some(chunk_info) = current.take() {
        map.put(chunk_info);
    }
    restore_map(storage, map_id, map);
    let ghost placed = storage@;
    let ghost world_then = *world;
    proof {
        assert(moved.take(n as int) =~= moved);
        lemma_spawn_all_reordered(occupied, batch, turns);
        lemma_evicted_all_reordered(occupied, batch, turns);
        assert forall|i: int| 0 <= i < doomed@.len() implies exists_in(
            *world,
            #[trigger] doomed@[i],
        ) by {
            assert(doomed@.contains(doomed@[i]));
        }
    }
    destroy_all(world, &doomed);
    proof {
        assert forall|role: Role| (#[trigger] placed.holder(role)) is Some implies exists_in(
            *world,
            placed.holder(role).unwrap(),
        ) by {
            let entity = placed.holder(role).unwrap();
            assert(exists_in(world_then, entity));
            if doomed@.contains(entity) {
                assert(!placed.tracks(entity));
            }
        }
        assert forall|entity: Entity|
            evicted_all(occupied, batch).contains(entity) implies gone_from(*world, entity) by {
            assert(doomed@.contains(entity));
            let i = choose|i: int| 0 <= i < doomed@.len() && doomed@[i] == entity;
            assert(gone_from(*world, doomed@[i]));
        }
        assert forall|entity: Entity|
            exists_in(*old(world), entity) && !evicted_all(occupied, batch).contains(
                entity,
            ) implies #[trigger] exists_in(*world, entity) by {
            assert(exists_in(world_then, entity));
            assert(!doomed@.contains(entity));
        }
    }
}

} // verus!
