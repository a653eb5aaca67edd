use bevy::ecs::world::World;
use bevy_cells::cells::chunk_query::ChunkQuery;
use bevy_cells::cells::commands::cell_batch::SpawnCellBatch;
use bevy_cells::cells::commands::chunk_single::SpawnChunk;
use bevy_cells::cells::world::Entity;
use bevy_cells::cells::commands::queue::CellCommands;
use bevy_cells::cells::{
    layer_fits, CellCoord, CellIndex, CellMap, CellMapLabel, CellStorage, ChunkCoord,
};
use bevy_cells::prelude::CellQuery;
use bevy_cells::tiles::commands::{MoveCell, SpawnCell};
use bevy_cells::tiles::{calculate_cell_index, calculate_chunk_coordinate};
use std::marker::PhantomData;

fn any(_: Entity) -> bool {
    true
}

struct Layer;

impl CellMapLabel for Layer {
    const CHUNK_SIZE: usize = 8;
}

fn alive(world: &World, entity: Entity) -> bool {
    world.get_entity(bevy::ecs::entity::Entity::from_bits(entity.to_bits())).is_some()
}

fn kill(world: &mut World, entity: Entity) {
    assert!(world.despawn(bevy::ecs::entity::Entity::from_bits(entity.to_bits())));
}

fn filled(world: &mut World, cells: Vec<[isize; 2]>) -> (CellStorage<Layer, 2>, Vec<Entity>) {
    let mut storage = CellStorage::<Layer, 2>::new();
    let spawned =
        SpawnCellBatch::<Layer, 2> { cell_cs: cells, label: PhantomData }.apply(world, &mut storage);
    (storage, spawned)
}

fn at(world: &World, storage: &CellStorage<Layer, 2>, cell: [isize; 2]) -> Option<Entity> {
    CellQuery::new(world, storage, &any).get_at(cell).map(|item| item.entity)
}

#[test]
fn components_wrap_their_values() {
    assert_eq!(*CellIndex::from(7), 7);
    assert_eq!(CellIndex::from(7), CellIndex(7));
    assert_eq!(*CellCoord::new([1, -2, 3]), [1, -2, 3]);
    assert_eq!(*ChunkCoord::from([4, 5]), [4, 5]);
    assert_eq!(ChunkCoord::from([4, 5]), ChunkCoord([4, 5]));
    assert_ne!(ChunkCoord::from([4, 5]), ChunkCoord([5, 4]));
    let _empty: CellMap<Layer, 2> = CellMap::default();
}

#[test]
fn a_new_index_holds_nothing() {
    let mut world = World::new();
    let storage = CellStorage::<Layer, 2>::default();
    let e = Entity::from_bits(world.spawn_empty().id().to_bits());
    assert!(!storage.holds(e));
    assert!(storage.cell_at([0, 0]).is_none());
    assert!(storage.chunk_of_cell([0, 0]).is_none());
}

#[test]
fn entity_handles_keep_their_bits() {
    let e = Entity::from_bits(0x0000_0003_0000_0011);
    assert_eq!(e.to_bits(), 0x0000_0003_0000_0011);
    assert_eq!(e, Entity { bits: 0x0000_0003_0000_0011 });
}

#[test]
fn prune_drops_the_cells_that_were_despawned_elsewhere() {
    let mut world = World::new();
    let (mut storage, spawned) = filled(&mut world, vec![[0, 0], [1, 0], [9, 9]]);
    kill(&mut world, spawned[1]);
    storage.prune(&world);
    assert_eq!(at(&world, &storage, [0, 0]), Some(spawned[0]));
    assert_eq!(at(&world, &storage, [1, 0]), None);
    assert_eq!(at(&world, &storage, [9, 9]), Some(spawned[2]));
    assert!(!storage.holds(spawned[1]));
    // the coordinate can be used again
    let e = Entity::from_bits(world.spawn_empty().id().to_bits());
    SpawnCell::<Layer, 2> { cell_c: [1, 0], cell_id: e, label: PhantomData }
        .apply(&mut world, &mut storage);
    assert_eq!(at(&world, &storage, [1, 0]), Some(e));
}

#[test]
fn prune_drops_the_chunks_that_were_despawned_elsewhere() {
    let mut world = World::new();
    let (mut storage, spawned) = filled(&mut world, vec![[0, 0], [1, 0], [9, 9]]);
    let chunk = storage.cell_at([0, 0]).unwrap().in_chunk.chunk;
    kill(&mut world, chunk);
    storage.prune(&world);
    assert_eq!(at(&world, &storage, [0, 0]), None);
    assert_eq!(at(&world, &storage, [1, 0]), None);
    assert_eq!(at(&world, &storage, [9, 9]), Some(spawned[2]));
    assert!(!storage.holds(chunk));
    assert!(!storage.holds(spawned[0]));
    assert!(storage.holds(spawned[2]));
}

#[test]
fn prune_drops_a_map_that_was_despawned_elsewhere() {
    let mut world = World::new();
    let (mut storage, spawned) = filled(&mut world, vec![[0, 0], [9, 9]]);
    let map = ChunkQuery::new(&world, &storage, &any).get_at([0, 0]).unwrap().in_map.map;
    kill(&mut world, map);
    storage.prune(&world);
    assert_eq!(at(&world, &storage, [0, 0]), None);
    assert_eq!(at(&world, &storage, [9, 9]), None);
    assert!(!storage.holds(spawned[0]));
    let (fresh, _) = filled(&mut world, vec![[0, 0]]);
    assert!(at(&world, &fresh, [0, 0]).is_some());
}

#[test]
fn prune_of_an_index_that_fits_the_world_changes_nothing() {
    let mut world = World::new();
    let (mut storage, spawned) = filled(&mut world, vec![[0, 0], [1, 0], [9, 9]]);
    storage.prune(&world);
    for (i, cell) in [[0, 0], [1, 0], [9, 9]].iter().enumerate() {
        assert_eq!(at(&world, &storage, *cell), Some(spawned[i]));
    }
    let mut empty = CellStorage::<Layer, 2>::new();
    empty.prune(&world);
    assert_eq!(at(&world, &empty, [0, 0]), None);
}

#[test]
fn chunk_query_finds_the_chunk_of_a_cell() {
    let mut world = World::new();
    let (storage, _) = filled(&mut world, vec![[0, 0], [-1, 7], [8, 0]]);
    let mut query = ChunkQuery::new(&world, &storage, &any);
    let here = query.get_at([3, 3]).unwrap();
    assert_eq!(here.coord.0, [0, 0]);
    assert_eq!(here.entity, storage.cell_at([0, 0]).unwrap().in_chunk.chunk);
    let left = query.get_at_mut([-8, 0]).unwrap();
    assert_eq!(left.coord.0, [-1, 0]);
    assert_ne!(left.entity, here.entity);
    assert_eq!(left.in_map.map, here.in_map.map);
    assert!(query.get_at([0, 8]).is_none());
    assert!(query.to_readonly().get_at([15, 7]).is_some());
}

#[test]
fn chunk_query_walks_the_chunks_of_the_points_of_a_box() {
    let mut world = World::new();
    let (storage, _) = filled(&mut world, vec![[0, 0], [8, 0]]);
    let mut query = ChunkQuery::new(&world, &storage, &any);
    let first = query.get_at([0, 0]).unwrap().entity;
    let second = query.get_at([8, 0]).unwrap().entity;
    let mut found = Vec::new();
    let mut iter = query.iter_in([6, -1], [9, 0]);
    while let Some(item) = iter.next() {
        found.push(item.entity);
    }
    assert_eq!(found, vec![first, first, second, second]);
    let mut iter = query.iter_in_mut([7, 0], [8, 0]);
    assert_eq!(iter.next().unwrap().coord.0, [0, 0]);
    assert_eq!(iter.next().unwrap().coord.0, [1, 0]);
    assert!(iter.next().is_none());
}

#[test]
fn spawn_chunk_of_a_dead_entity_or_of_the_map_or_a_chunk_changes_nothing() {
    let mut world = World::new();
    let (mut storage, spawned) = filled(&mut world, vec![[0, 0], [8, 0]]);
    let chunk = storage.cell_at([0, 0]).unwrap().in_chunk.chunk;
    let map = storage.chunk_of_cell([0, 0]).unwrap().in_map.map;
    let count = world.entities().len();
    let dead = Entity::from_bits(world.spawn_empty().id().to_bits());
    kill(&mut world, dead);
    for held in [dead, map, chunk] {
        SpawnChunk::<Layer, 2> { chunk_c: [0, 0], chunk_id: held, label: PhantomData }
            .apply(&mut world, &mut storage);
        SpawnChunk::<Layer, 2> { chunk_c: [1, 0], chunk_id: held, label: PhantomData }
            .apply(&mut world, &mut storage);
    }
    assert_eq!(world.entities().len(), count);
    assert_eq!(at(&world, &storage, [0, 0]), Some(spawned[0]));
    assert_eq!(at(&world, &storage, [8, 0]), Some(spawned[1]));
    assert_eq!(storage.cell_at([0, 0]).unwrap().in_chunk.chunk, chunk);
}

#[test]
fn spawn_chunk_of_a_cell_takes_it_out_of_its_slot() {
    let mut world = World::new();
    let (mut storage, spawned) = filled(&mut world, vec![[0, 0], [1, 0], [8, 0]]);
    let old_chunk = storage.cell_at([8, 0]).unwrap().in_chunk.chunk;
    // the cell at [0, 0] becomes the chunk of [8, 0]
    SpawnChunk::<Layer, 2> { chunk_c: [1, 0], chunk_id: spawned[0], label: PhantomData }
        .apply(&mut world, &mut storage);
    assert_eq!(at(&world, &storage, [0, 0]), None);
    assert_eq!(at(&world, &storage, [1, 0]), Some(spawned[1]));
    assert_eq!(at(&world, &storage, [8, 0]), None);
    assert_eq!(storage.chunk_of_cell([8, 0]).unwrap().entity, spawned[0]);
    assert!(alive(&world, spawned[0]));
    assert!(!alive(&world, spawned[2]));
    assert!(!alive(&world, old_chunk));
    // and the cell at [1, 0] the chunk in which it sat
    let home = storage.cell_at([1, 0]).unwrap().in_chunk.chunk;
    SpawnChunk::<Layer, 2> { chunk_c: [0, 0], chunk_id: spawned[1], label: PhantomData }
        .apply(&mut world, &mut storage);
    assert_eq!(at(&world, &storage, [1, 0]), None);
    assert_eq!(storage.chunk_of_cell([0, 0]).unwrap().entity, spawned[1]);
    assert!(alive(&world, spawned[1]));
    assert!(!alive(&world, home));
}

#[test]
fn release_cell_takes_an_entity_out_of_its_slot_and_keeps_it() {
    let mut world = World::new();
    let (mut storage, spawned) = filled(&mut world, vec![[0, 0], [1, 0]]);
    storage.release_cell(spawned[0]);
    assert_eq!(at(&world, &storage, [0, 0]), None);
    assert_eq!(at(&world, &storage, [1, 0]), Some(spawned[1]));
    assert!(!storage.holds(spawned[0]));
    assert!(alive(&world, spawned[0]));
    let chunk = storage.cell_at([1, 0]).unwrap().in_chunk.chunk;
    storage.release_cell(chunk);
    assert!(storage.holds(chunk));
    assert_eq!(at(&world, &storage, [1, 0]), Some(spawned[1]));
}

#[test]
fn tiles_are_cells_of_two_dimensions() {
    assert_eq!(calculate_chunk_coordinate([-1, 8], 8), [-1, 1]);
    assert_eq!(calculate_cell_index([-1, 8], 8), 7);
    let mut world = World::new();
    let mut storage = CellStorage::<Layer, 2>::new();
    let e = Entity::from_bits(world.spawn_empty().id().to_bits());
    SpawnCell::<Layer, 2> { cell_c: [2, 3], cell_id: e, label: PhantomData }
        .apply(&mut world, &mut storage);
    MoveCell::<Layer, 2> { old_c: [2, 3], new_c: [-2, -3], label: PhantomData }
        .apply(&mut world, &mut storage);
    assert_eq!(at(&world, &storage, [-2, -3]), Some(e));
}

#[test]
fn layers_fit_while_their_chunks_have_a_slot_count() {
    struct Empty;
    impl CellMapLabel for Empty {
        const CHUNK_SIZE: usize = 0;
    }
    struct Huge;
    impl CellMapLabel for Huge {
        const CHUNK_SIZE: usize = usize::MAX;
    }
    struct Half;
    impl CellMapLabel for Half {
        const CHUNK_SIZE: usize = isize::MAX as usize;
    }
    struct Wide;
    impl CellMapLabel for Wide {
        const CHUNK_SIZE: usize = 1 << 16;
    }
    struct One;
    impl CellMapLabel for One {
        const CHUNK_SIZE: usize = 1;
    }
    assert!(layer_fits::<Layer, 2>());
    assert!(layer_fits::<Layer, 0>());
    assert!(!layer_fits::<Empty, 2>());
    assert!(!layer_fits::<Huge, 1>());
    assert!(layer_fits::<Half, 1>());
    assert!(!layer_fits::<Half, 2>());
    assert!(layer_fits::<Wide, 3>());
    assert_eq!(layer_fits::<Wide, 4>(), usize::BITS > 64);
    assert!(layer_fits::<One, 1000>());
}

#[test]
fn queued_commands_leave_out_what_was_despawned_elsewhere() {
    let mut world = World::new();
    let (mut storage, spawned) = filled(&mut world, vec![[0, 0], [1, 0]]);
    kill(&mut world, spawned[0]);
    let mut commands = CellCommands::<Layer, 2>::new();
    commands.move_cell([0, 0], [1, 0]);
    commands.apply(&mut world, &mut storage);
    assert_eq!(at(&world, &storage, [0, 0]), None);
    assert_eq!(at(&world, &storage, [1, 0]), Some(spawned[1]));
}

#[test]
fn chunk_queries_hand_out_only_what_passes_their_filter() {
    let mut world = World::new();
    let (storage, _) = filled(&mut world, vec![[0, 0], [8, 0]]);
    let first = storage.chunk_of_cell([0, 0]).unwrap().entity;
    let filter = |entity: Entity| entity != first;
    let query = ChunkQuery::new(&world, &storage, &filter);
    assert!(query.get_at([0, 0]).is_none());
    assert_eq!(query.get_at([8, 0]).unwrap().coord.0, [1, 0]);
    let mut iter = query.iter_in([7, 0], [8, 0]);
    assert_eq!(iter.next().unwrap().coord.0, [1, 0]);
    assert!(iter.next().is_none());
}
