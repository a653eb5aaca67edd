//! What holds of the commands and the queries of a cell map, whatever the
//! world and the index of the layer they are applied to.
use super::cell_query::{CellItem, CellQuery};
use super::commands::cell_single::{DespawnCell, MoveCell, SpawnCell, SwapCell};
use super::commands::chunk_single::DespawnChunk;
use super::commands::helpers::{despawn_all, evicted_all, spawn_all, taken_at};
use super::commands::map::DespawnMap;
use super::commands::{cell_keys, cell_role, lemma_cell_role_injective, placements};
use super::coords::{chunk_of, coord_ints, local_of};
use super::world::{can_despawn, exists_in, gone_from, Entity};
use super::{lemma_without_cell, CellMapLabel, CellStorage, IndexView, Role};
use bevy::ecs::world::World;
use std::marker::PhantomData;
use vstd::prelude::*;

verus! {

/// A lookup at a coordinate that an entity occupies hands out that entity,
/// with the coordinate and its slot, or nothing if the filter of the query
/// turns the entity down. A lookup at an empty coordinate hands out nothing.
pub proof fn law_get_at<L: CellMapLabel, F: Fn(Entity) -> bool, const N: usize>(
    query: CellQuery<'_, L, F, N>,
    cell_c: [isize; N],
    item: Option<CellItem<L, N>>,
)
    requires
        query.answers(coord_ints(cell_c), item),
    ensures
        match query.storage().occupant(coord_ints(cell_c)) {
            Some(entity) => match item {
                Some(item) => item.entity == entity && coord_ints(item.coord.0) == coord_ints(
                    cell_c,
                ) && item.index.0 == local_of(coord_ints(cell_c), L::CHUNK_SIZE as int),
                None => call_ensures(query.filter(), (entity,), false),
            },
            None => item is None,
        },
{
}

/// After an entity was spawned at a coordinate, a lookup there hands out
/// that entity, unless the filter of the query turns it down.
pub proof fn law_spawn_then_get<L: CellMapLabel, F: Fn(Entity) -> bool, const N: usize>(
    command: SpawnCell<L, N>,
    world_before: World,
    before: CellStorage<L, N>,
    world_after: World,
    after: CellStorage<L, N>,
    query: CellQuery<'_, L, F, N>,
    item: Option<CellItem<L, N>>,
)
    requires
        command.placeable(world_before, before),
        command.applied(world_before, before, world_after, after),
        query.storage() == after,
        query.answers(coord_ints(command.cell_c), item),
    ensures
        match item {
            Some(item) => item.entity == command.cell_id,
            None => call_ensures(query.filter(), (command.cell_id,), false),
        },
        exists_in(world_after, command.cell_id),
{
}

/// An entity that sits at a coordinate and is spawned at another one sits
/// at the other one afterwards and at the first no more, and still exists.
pub proof fn law_spawn_of_placed<L: CellMapLabel, const N: usize>(
    command: SpawnCell<L, N>,
    world_before: World,
    before: CellStorage<L, N>,
    world_after: World,
    after: CellStorage<L, N>,
    from: Seq<int>,
)
    requires
        before.wf(world_before),
        command.applied(world_before, before, world_after, after),
        before.occupant(from) == Some(command.cell_id),
        from != coord_ints(command.cell_c),
    ensures
        after.occupant(coord_ints(command.cell_c)) == Some(command.cell_id),
        after.occupant(from) is None,
        exists_in(world_after, command.cell_id),
{
    let entity = command.cell_id;
    lemma_without_cell(before@, entity, world_before, L::CHUNK_SIZE, N as nat);
    assert(before@.holder(cell_role::<L>(from)) == Some(entity));
    assert(before@.is_cell(entity));
}

/// A second spawn at a coordinate, of another entity, despawns the entity
/// of the first, as far as a world can despawn it, and leaves the entity of
/// the second there.
pub proof fn law_spawn_twice<L: CellMapLabel, const N: usize>(
    first: SpawnCell<L, N>,
    second: SpawnCell<L, N>,
    world_0: World,
    store_0: CellStorage<L, N>,
    world_1: World,
    store_1: CellStorage<L, N>,
    world_2: World,
    store_2: CellStorage<L, N>,
)
    requires
        first.placeable(world_0, store_0),
        first.applied(world_0, store_0, world_1, store_1),
        second.cell_c == first.cell_c,
        second.cell_id != first.cell_id,
        second.placeable(world_1, store_1),
        second.applied(world_1, store_1, world_2, store_2),
    ensures
        store_2.occupant(coord_ints(first.cell_c)) == Some(second.cell_id),
        can_despawn(first.cell_id) ==> !exists_in(world_2, first.cell_id),
        !can_despawn(first.cell_id) ==> exists_in(world_2, first.cell_id),
        exists_in(world_2, second.cell_id),
{
    let target = cell_role::<L>(coord_ints(first.cell_c));
    lemma_without_cell(store_1@, second.cell_id, world_1, L::CHUNK_SIZE, N as nat);
    assert(store_1@.holder(target) == Some(first.cell_id));
    assert(store_1@.without_cell(second.cell_id).holder(target) == Some(first.cell_id));
    assert(exists_in(world_1, first.cell_id));
}

/// After the despawn of an occupied coordinate the coordinate is empty, a
/// lookup there hands out nothing, and the entity that sat there is gone.
/// The despawn of an empty coordinate changes nothing.
pub proof fn law_despawn_then_get<L: CellMapLabel, F: Fn(Entity) -> bool, const N: usize>(
    command: DespawnCell<L, N>,
    world_before: World,
    before: CellStorage<L, N>,
    world_after: World,
    after: CellStorage<L, N>,
    query: CellQuery<'_, L, F, N>,
    item: Option<CellItem<L, N>>,
)
    requires
        command.applied(world_before, before, world_after, after),
        query.storage() == after,
        query.answers(coord_ints(command.cell_c), item),
    ensures
        item is None,
        after.occupant(coord_ints(command.cell_c)) is None,
        before.occupant(coord_ints(command.cell_c)) matches Some(entity) ==> (if can_despawn(
            entity,
        ) {
            !exists_in(world_after, entity)
        } else {
            exists_in(world_before, entity) ==> exists_in(world_after, entity)
        }),
        before.occupant(coord_ints(command.cell_c)) is None ==> world_after == world_before
            && after@ == before@,
{
}

/// A move from an occupied coordinate to another one empties the first,
/// leaves its entity at the second and despawns the entity that sat at the
/// second. A move from a coordinate to itself and a move from an empty
/// coordinate change nothing.
pub proof fn law_move<L: CellMapLabel, const N: usize>(
    command: MoveCell<L, N>,
    world_before: World,
    before: CellStorage<L, N>,
    world_after: World,
    after: CellStorage<L, N>,
)
    requires
        before.wf(world_before),
        command.applied(world_before, before, world_after, after),
    ensures
        coord_ints(command.old_c) == coord_ints(command.new_c) ==> world_after == world_before
            && after@ == before@,
        before.occupant(coord_ints(command.old_c)) is None ==> world_after == world_before
            && after@ == before@,
        coord_ints(command.old_c) != coord_ints(command.new_c) ==> (before.occupant(
            coord_ints(command.old_c),
        ) matches Some(moved) ==> {
            &&& after.occupant(coord_ints(command.old_c)) is None
            &&& after.occupant(coord_ints(command.new_c)) == Some(moved)
            &&& exists_in(world_after, moved)
            &&& before.occupant(coord_ints(command.new_c)) matches Some(replaced) ==> (
            if can_despawn(replaced) {
                !exists_in(world_after, replaced)
            } else {
                exists_in(world_after, replaced)
            })
        }),
{
    let a = coord_ints(command.old_c);
    let b = coord_ints(command.new_c);
    if a != b {
        if let Some(replaced) = before.occupant(b) {
            assert(before@.holder(cell_role::<L>(b)) == Some(replaced));
            assert(exists_in(world_before, replaced));
        }
        if let Some(moved) = before.occupant(a) {
            assert(before@.holder(cell_role::<L>(a)) == Some(moved));
            if before.occupant(b) == Some(moved) {
                lemma_cell_role_injective::<L>(a, b);
            }
        }
    }
}

/// A swap of two occupied coordinates leaves each entity at the coordinate
/// of the other and despawns neither.
pub proof fn law_swap<L: CellMapLabel, const N: usize>(
    command: SwapCell<L, N>,
    world_before: World,
    before: CellStorage<L, N>,
    world_after: World,
    after: CellStorage<L, N>,
    first: Entity,
    second: Entity,
)
    requires
        before.wf(world_before),
        command.applied(world_before, before, world_after, after),
        before.occupant(coord_ints(command.cell_c_1)) == Some(first),
        before.occupant(coord_ints(command.cell_c_2)) == Some(second),
    ensures
        after.occupant(coord_ints(command.cell_c_1)) == Some(second),
        after.occupant(coord_ints(command.cell_c_2)) == Some(first),
        exists_in(world_after, first),
        exists_in(world_after, second),
{
    assert(before@.holder(cell_role::<L>(coord_ints(command.cell_c_1))) == Some(first));
    assert(before@.holder(cell_role::<L>(coord_ints(command.cell_c_2))) == Some(second));
}

/// A swap of an occupied coordinate with an empty one leaves every
/// coordinate as the move from the first to the second does.
pub proof fn law_swap_with_empty_is_move<L: CellMapLabel, const N: usize>(
    swap: SwapCell<L, N>,
    moving: MoveCell<L, N>,
    world_before: World,
    before: CellStorage<L, N>,
    world_swapped: World,
    swapped: CellStorage<L, N>,
    world_moved: World,
    moved: CellStorage<L, N>,
)
    requires
        before.wf(world_before),
        swap.applied(world_before, before, world_swapped, swapped),
        moving.applied(world_before, before, world_moved, moved),
        moving.old_c == swap.cell_c_1,
        moving.new_c == swap.cell_c_2,
        before.occupant(coord_ints(swap.cell_c_2)) is None,
    ensures
        swapped.occupancy() == moved.occupancy(),
{
    let a = coord_ints(swap.cell_c_1);
    let b = coord_ints(swap.cell_c_2);
    assert forall|cell: Seq<int>| swapped.occupant(cell) == moved.occupant(cell) by {
        if a == b || before.occupant(a) is None {
            assert(moved@ == before@);
            if cell != a && cell != b {
            }
        } else {
            if cell != a && cell != b {
            }
        }
    }
    assert(swapped.occupancy() =~= moved.occupancy());
}

/// An entity that an index does not hold is neither its map nor one of its chunks.
pub proof fn lemma_unheld_is_placeable(index: IndexView, entity: Entity)
    requires
        !index.tracks(entity),
    ensures
        !index.is_map_or_chunk(entity),
        !index.is_cell(entity),
{
    if index.map == Some(entity) {
        assert(index.holder(Role::MapEntity) == Some(entity));
    } else if index.is_map_or_chunk(entity) {
        let place = choose|place: Seq<int>| #[trigger] index.chunk_at(place) == Some(entity);
        assert(index.holder(Role::ChunkAt(place)) == Some(entity));
    }
    if index.is_cell(entity) {
        let (place, slot) = choose|place: Seq<int>, slot: int|
            #[trigger] index.holder(Role::CellAt(place, slot)) == Some(entity);
        assert(index.holder(Role::CellAt(place, slot)) == Some(entity));
    }
}

/// The steps of placing the entities of a batch one after the other, each
/// with `SpawnCell`: every step starts where the step before it ended, and
/// places an entity that exists and that the index does not hold yet.
pub open spec fn spawned_in_turn<L: CellMapLabel, const N: usize>(
    cells: Seq<([isize; N], Entity)>,
    worlds: Seq<World>,
    stores: Seq<CellStorage<L, N>>,
) -> bool {
    &&& worlds.len() == cells.len() + 1
    &&& stores.len() == cells.len() + 1
    &&& forall|i: int|
        0 <= i < cells.len() ==> {
            let command = SpawnCell::<L, N> {
                cell_c: (#[trigger] cells[i]).0,
                cell_id: cells[i].1,
                label: PhantomData,
            };
            &&& exists_in(worlds[i], cells[i].1)
            &&& !stores[i].tracks(cells[i].1)
            &&& command.applied(worlds[i], stores[i], worlds[i + 1], stores[i + 1])
        }
}

/// While the entities of a batch are placed one after the other, the
/// occupancy after the first `upto` steps is the one that the first `upto`
/// placements of the batch leave.
pub proof fn law_spawn_batch_prefix<L: CellMapLabel, const N: usize>(
    cells: Seq<([isize; N], Entity)>,
    worlds: Seq<World>,
    stores: Seq<CellStorage<L, N>>,
    upto: int,
)
    requires
        spawned_in_turn(cells, worlds, stores),
        0 <= upto <= cells.len(),
    ensures
        stores[upto].occupancy() == spawn_all(
            stores[0].occupancy(),
            placements(cells).take(upto),
        ),
        forall|entity: Entity|
            evicted_all(stores[0].occupancy(), placements(cells).take(upto)).contains(entity)
                <==> exists|i: int|
                0 <= i < upto && (#[trigger] stores[i]).occupant(coord_ints(cells[i].0)) == Some(
                    entity,
                ),
    decreases upto,
{
    let first = stores[0].occupancy();
    let batch = placements(cells);
    if upto > 0 {
        law_spawn_batch_prefix(cells, worlds, stores, upto - 1);
        let done = batch.take(upto);
        assert(done.drop_last() =~= batch.take(upto - 1));
        let last = cells[upto - 1];
        assert(done.last() == (coord_ints(last.0), last.1));
        let then = stores[upto - 1];
        let now = stores[upto];
        lemma_unheld_is_placeable(then@, last.1);
        assert(cells[upto - 1].1 == last.1);
        assert(now.occupancy() =~= then.occupancy().insert(coord_ints(last.0), last.1)) by {
            assert forall|cell: Seq<int>| cell != coord_ints(last.0) implies now.occupant(cell)
                == then.occupant(cell) by {
                assert(then@.holder(cell_role::<L>(cell)) != Some(last.1));
            }
        }
        assert forall|entity: Entity|
            evicted_all(first, done).contains(entity) <==> exists|i: int|
                0 <= i < upto && (#[trigger] stores[i]).occupant(coord_ints(cells[i].0)) == Some(
                    entity,
                ) by {
            if evicted_all(first, done).contains(entity) {
                if evicted_all(first, batch.take(upto - 1)).contains(entity) {
                    let i = choose|i: int|
                        0 <= i < upto - 1 && (#[trigger] stores[i]).occupant(coord_ints(cells[i].0))
                            == Some(entity);
                    assert(0 <= i < upto && stores[i].occupant(coord_ints(cells[i].0)) == Some(
                        entity,
                    ));
                } else {
                    assert(stores[upto - 1].occupant(coord_ints(cells[upto - 1].0)) == Some(
                        entity,
                    ));
                }
            }
            if exists|i: int|
                0 <= i < upto && (#[trigger] stores[i]).occupant(coord_ints(cells[i].0)) == Some(
                    entity,
                ) {
                let i = choose|i: int|
                    0 <= i < upto && (#[trigger] stores[i]).occupant(coord_ints(cells[i].0))
                        == Some(entity);
                if i < upto - 1 {
                    assert(evicted_all(first, batch.take(upto - 1)).contains(entity));
                }
            }
        }
    } else {
        assert(batch.take(0) =~= Seq::<(Seq<int>, Entity)>::empty());
    }
}

/// Placing the entities of a batch one after the other leaves the
/// occupancy that `insert_cell_batch` leaves, and replaces on the way the
/// entities that `insert_cell_batch` despawns.
pub proof fn law_spawn_batch<L: CellMapLabel, const N: usize>(
    cells: Seq<([isize; N], Entity)>,
    worlds: Seq<World>,
    stores: Seq<CellStorage<L, N>>,
)
    requires
        spawned_in_turn(cells, worlds, stores),
    ensures
        stores.last().occupancy() == spawn_all(stores[0].occupancy(), placements(cells)),
        forall|entity: Entity|
            evicted_all(stores[0].occupancy(), placements(cells)).contains(entity) <==> exists|
                i: int,
            |
                0 <= i < cells.len() && (#[trigger] stores[i]).occupant(coord_ints(cells[i].0))
                    == Some(entity),
{
    law_spawn_batch_prefix(cells, worlds, stores, cells.len() as int);
    assert(placements(cells).take(cells.len() as int) =~= placements(cells));
}

/// The steps of emptying the coordinates of a batch one after the other,
/// each with `DespawnCell`: every step starts where the step before it ended.
pub open spec fn despawned_in_turn<L: CellMapLabel, const N: usize>(
    cells: Seq<[isize; N]>,
    worlds: Seq<World>,
    stores: Seq<CellStorage<L, N>>,
) -> bool {
    &&& worlds.len() == cells.len() + 1
    &&& stores.len() == cells.len() + 1
    &&& forall|i: int|
        0 <= i < cells.len() ==> (DespawnCell::<L, N> {
            cell_c: #[trigger] cells[i],
            label: PhantomData,
        }).applied(worlds[i], stores[i], worlds[i + 1], stores[i + 1])
}

/// While the coordinates of a batch are emptied one after the other, the
/// occupancy after the first `upto` steps is the one that the first `upto`
/// removals of the batch leave.
pub proof fn law_despawn_batch_prefix<L: CellMapLabel, const N: usize>(
    cells: Seq<[isize; N]>,
    worlds: Seq<World>,
    stores: Seq<CellStorage<L, N>>,
    upto: int,
)
    requires
        despawned_in_turn(cells, worlds, stores),
        0 <= upto <= cells.len(),
    ensures
        stores[upto].occupancy() == despawn_all(stores[0].occupancy(), cell_keys(cells).take(upto)),
    decreases upto,
{
    let keys = cell_keys(cells);
    if upto > 0 {
        law_despawn_batch_prefix(cells, worlds, stores, upto - 1);
        let done = keys.take(upto);
        assert(done.drop_last() =~= keys.take(upto - 1));
        let last = cells[upto - 1];
        assert(done.last() == coord_ints(last));
        let then = stores[upto - 1];
        let now = stores[upto];
        assert(now.occupancy() =~= then.occupancy().remove(coord_ints(last))) by {
            assert forall|cell: Seq<int>| cell != coord_ints(last) implies now.occupant(cell)
                == then.occupant(cell) by {}
        }
    } else {
        assert(keys.take(0) =~= Seq::<Seq<int>>::empty());
    }
}

/// Emptying the coordinates of a batch one after the other leaves the
/// occupancy that `DespawnCellBatch` leaves, and every step despawns what
/// `take_cells` takes at that step.
pub proof fn law_despawn_batch<L: CellMapLabel, const N: usize>(
    cells: Seq<[isize; N]>,
    worlds: Seq<World>,
    stores: Seq<CellStorage<L, N>>,
)
    requires
        despawned_in_turn(cells, worlds, stores),
    ensures
        stores.last().occupancy() == despawn_all(stores[0].occupancy(), cell_keys(cells)),
        forall|i: int|
            0 <= i < cells.len() ==> (#[trigger] stores[i]).occupant(coord_ints(cells[i]))
                == taken_at(stores[0].occupancy(), cell_keys(cells), i),
{
    law_despawn_batch_prefix(cells, worlds, stores, cells.len() as int);
    assert(cell_keys(cells).take(cells.len() as int) =~= cell_keys(cells));
    assert forall|i: int| 0 <= i < cells.len() implies (#[trigger] stores[i]).occupant(
        coord_ints(cells[i]),
    ) == taken_at(stores[0].occupancy(), cell_keys(cells), i) by {
        law_despawn_batch_prefix(cells, worlds, stores, i);
    }
}

/// After the despawn of a chunk no entity exists any more that sat at a
/// coordinate of that chunk, but for those that a world cannot despawn,
/// which are left as they were.
pub proof fn law_despawn_chunk_cascades<L: CellMapLabel, const N: usize>(
    command: DespawnChunk<L, N>,
    world_before: World,
    before: CellStorage<L, N>,
    world_after: World,
    after: CellStorage<L, N>,
    cell: Seq<int>,
    entity: Entity,
)
    requires
        before.wf(world_before),
        command.applied(world_before, before, world_after, after),
        before.occupant(cell) == Some(entity),
        chunk_of(cell, L::CHUNK_SIZE as int) == coord_ints(command.chunk_c),
    ensures
        can_despawn(entity) ==> !exists_in(world_after, entity),
        !can_despawn(entity) ==> exists_in(world_after, entity),
        after.occupant(cell) is None,
{
    let place = coord_ints(command.chunk_c);
    let slot = local_of(cell, L::CHUNK_SIZE as int);
    assert(before@.holder(Role::CellAt(place, slot)) == Some(entity));
    assert(before@.chunks[place].cells[slot] == Some(entity));
    assert(before@.chunk_holds(place, entity));
    assert(gone_from(world_after, entity));
    assert(exists_in(world_before, entity));
}

/// After the despawn of a map no entity exists any more that sat at a
/// coordinate of the map, and no chunk of the map, but for those that a
/// world cannot despawn, which are left as they were. Every coordinate is
/// empty.
pub proof fn law_despawn_map_cascades<L: CellMapLabel, const N: usize>(
    command: DespawnMap<L, N>,
    world_before: World,
    before: CellStorage<L, N>,
    world_after: World,
    after: CellStorage<L, N>,
    role: Role,
    entity: Entity,
)
    requires
        before.wf(world_before),
        command.applied(world_before, before, world_after, after),
        before@.holder(role) == Some(entity),
    ensures
        can_despawn(entity) ==> !exists_in(world_after, entity),
        !can_despawn(entity) ==> exists_in(world_after, entity),
        forall|cell: Seq<int>| after.occupant(cell) is None,
{
    assert(exists_in(world_before, entity));
    assert(before.tracks(entity));
    assert(gone_from(world_after, entity));
}

} // verus!
