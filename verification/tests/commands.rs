use bevy::ecs::world::World;
use bevy_cells::cells::cell_query::CellQuery;
use bevy_cells::cells::commands::cell_batch::{
    DespawnCellBatch, MoveCellBatch, SpawnCellBatch, SwapCellBatch,
};
use bevy_cells::cells::commands::cell_single::{DespawnCell, MoveCell, SpawnCell, SwapCell};
use bevy_cells::cells::commands::chunk_single::{DespawnChunk, SpawnChunk};
use bevy_cells::cells::commands::groups::group_by;
use bevy_cells::cells::commands::map::DespawnMap;
use bevy_cells::cells::commands::queue::CellCommands;
use bevy_cells::cells::commands::{insert_cell, insert_cell_batch, take_cell, take_cells};
use bevy_cells::cells::world::Entity;
use bevy_cells::cells::{CellMapLabel, CellStorage};
use std::marker::PhantomData;

fn any(_: Entity) -> bool {
    true
}

struct Layer;

impl CellMapLabel for Layer {
    const CHUNK_SIZE: usize = 16;
}

struct Small;

impl CellMapLabel for Small {
    const CHUNK_SIZE: usize = 2;
}

fn spawn(world: &mut World) -> Entity {
    Entity::from_bits(world.spawn_empty().id().to_bits())
}

fn alive(world: &World, entity: Entity) -> bool {
    world
        .get_entity(bevy::ecs::entity::Entity::from_bits(entity.to_bits()))
        .is_some()
}

fn at<L: CellMapLabel, const N: usize>(
    world: &World,
    storage: &CellStorage<L, N>,
    cell: [isize; N],
) -> Option<Entity> {
    CellQuery::new(world, storage, &any).get_at(cell).map(|item| item.entity)
}

fn spawn_cell(world: &mut World, storage: &mut CellStorage<Layer, 2>, cell: [isize; 2]) -> Entity {
    let entity = spawn(world);
    SpawnCell::<Layer, 2> { cell_c: cell, cell_id: entity, label: PhantomData }
        .apply(world, storage);
    entity
}

#[test]
fn spawn_then_get_finds_the_entity() {
    let mut world = World::new();
    let mut storage = CellStorage::<Layer, 2>::new();
    let e = spawn_cell(&mut world, &mut storage, [3, -4]);
    assert_eq!(at(&world, &storage, [3, -4]), Some(e));
    assert_eq!(at(&world, &storage, [3, -3]), None);
    assert_eq!(at(&world, &storage, [-4, 3]), None);
    assert!(alive(&world, e));
    assert!(storage.holds(e));
}

#[test]
fn spawn_reports_slot_coordinate_and_chunk() {
    let mut world = World::new();
    let mut storage = CellStorage::<Layer, 2>::new();
    let e = spawn_cell(&mut world, &mut storage, [-1, -1]);
    let item = CellQuery::new(&world, &storage, &any).get_at([-1, -1]).unwrap();
    assert_eq!(item.entity, e);
    assert_eq!(item.index.0, 255);
    assert_eq!(item.coord.0, [-1, -1]);
    assert!(alive(&world, item.in_chunk.chunk));
    assert!(storage.holds(item.in_chunk.chunk));
    assert_ne!(item.in_chunk.chunk, e);
}

#[test]
fn second_spawn_at_a_coordinate_destroys_the_first() {
    let mut world = World::new();
    let mut storage = CellStorage::<Layer, 2>::new();
    let e = spawn_cell(&mut world, &mut storage, [0, 0]);
    let e2 = spawn_cell(&mut world, &mut storage, [0, 0]);
    assert_ne!(e, e2);
    assert_eq!(at(&world, &storage, [0, 0]), Some(e2));
    assert!(!alive(&world, e));
    assert!(alive(&world, e2));
    assert!(!storage.holds(e));
}

#[test]
fn spawn_of_a_dead_entity_changes_nothing() {
    let mut world = World::new();
    let mut storage = CellStorage::<Layer, 2>::new();
    let e = spawn_cell(&mut world, &mut storage, [0, 0]);
    let dead = spawn(&mut world);
    world.despawn(bevy::ecs::entity::Entity::from_bits(dead.to_bits()));
    SpawnCell::<Layer, 2> { cell_c: [0, 0], cell_id: dead, label: PhantomData }
        .apply(&mut world, &mut storage);
    assert_eq!(at(&world, &storage, [0, 0]), Some(e));
    assert!(alive(&world, e));
}

#[test]
fn spawn_of_a_placed_entity_takes_it_to_the_new_coordinate() {
    let mut world = World::new();
    let mut storage = CellStorage::<Layer, 2>::new();
    let e = spawn_cell(&mut world, &mut storage, [0, 0]);
    let other = spawn_cell(&mut world, &mut storage, [1, 0]);
    let e2 = spawn_cell(&mut world, &mut storage, [50, 5]);
    SpawnCell::<Layer, 2> { cell_c: [50, 5], cell_id: e, label: PhantomData }
        .apply(&mut world, &mut storage);
    assert_eq!(at(&world, &storage, [50, 5]), Some(e));
    assert_eq!(at(&world, &storage, [0, 0]), None);
    assert_eq!(at(&world, &storage, [1, 0]), Some(other));
    assert!(alive(&world, e));
    assert!(!alive(&world, e2));
    // a lookup gives the same answer again
    assert_eq!(at(&world, &storage, [50, 5]), Some(e));
    let item = CellQuery::new(&world, &storage, &any).get_at([50, 5]).unwrap();
    assert_eq!(item.index.0, 2 + 5 * 16);
    assert_ne!(item.in_chunk.chunk, storage.cell_at([1, 0]).unwrap().in_chunk.chunk);
}

#[test]
fn spawn_of_an_entity_at_its_own_coordinate_keeps_it() {
    let mut world = World::new();
    let mut storage = CellStorage::<Layer, 2>::new();
    let e = spawn_cell(&mut world, &mut storage, [3, 3]);
    let count = world.entities().len();
    SpawnCell::<Layer, 2> { cell_c: [3, 3], cell_id: e, label: PhantomData }
        .apply(&mut world, &mut storage);
    assert_eq!(at(&world, &storage, [3, 3]), Some(e));
    assert!(alive(&world, e));
    assert_eq!(world.entities().len(), count);
}

#[test]
fn spawn_of_the_map_or_a_chunk_as_a_cell_changes_nothing() {
    let mut world = World::new();
    let mut storage = CellStorage::<Layer, 2>::new();
    let e = spawn_cell(&mut world, &mut storage, [0, 0]);
    let chunk = storage.cell_at([0, 0]).unwrap().in_chunk.chunk;
    let map = storage.chunk_of_cell([0, 0]).unwrap().in_map.map;
    let count = world.entities().len();
    for held in [chunk, map] {
        SpawnCell::<Layer, 2> { cell_c: [0, 0], cell_id: held, label: PhantomData }
            .apply(&mut world, &mut storage);
        SpawnCell::<Layer, 2> { cell_c: [40, 40], cell_id: held, label: PhantomData }
            .apply(&mut world, &mut storage);
    }
    assert_eq!(at(&world, &storage, [0, 0]), Some(e));
    assert_eq!(at(&world, &storage, [40, 40]), None);
    assert_eq!(world.entities().len(), count);
    assert!(alive(&world, e) && alive(&world, chunk) && alive(&world, map));
    assert_eq!(storage.cell_at([0, 0]).unwrap().in_chunk.chunk, chunk);
}

#[test]
fn despawn_empties_the_coordinate_and_destroys_the_entity() {
    let mut world = World::new();
    let mut storage = CellStorage::<Layer, 2>::new();
    let e = spawn_cell(&mut world, &mut storage, [7, 7]);
    let other = spawn_cell(&mut world, &mut storage, [7, 8]);
    DespawnCell::<Layer, 2> { cell_c: [7, 7], label: PhantomData }.apply(&mut world, &mut storage);
    assert_eq!(at(&world, &storage, [7, 7]), None);
    assert_eq!(at(&world, &storage, [7, 8]), Some(other));
    assert!(!alive(&world, e));
    assert!(alive(&world, other));
}

#[test]
fn despawn_of_an_empty_coordinate_is_a_no_op() {
    let mut world = World::new();
    let mut storage = CellStorage::<Layer, 2>::new();
    DespawnCell::<Layer, 2> { cell_c: [1, 1], label: PhantomData }.apply(&mut world, &mut storage);
    assert_eq!(world.entities().len(), 0);
    let e = spawn_cell(&mut world, &mut storage, [7, 7]);
    let count = world.entities().len();
    DespawnCell::<Layer, 2> { cell_c: [1, 1], label: PhantomData }.apply(&mut world, &mut storage);
    DespawnCell::<Layer, 2> { cell_c: [100, 100], label: PhantomData }
        .apply(&mut world, &mut storage);
    assert_eq!(world.entities().len(), count);
    assert_eq!(at(&world, &storage, [7, 7]), Some(e));
}

#[test]
fn move_replaces_the_occupant_of_the_new_coordinate() {
    let mut world = World::new();
    let mut storage = CellStorage::<Layer, 2>::new();
    let e = spawn_cell(&mut world, &mut storage, [0, 0]);
    let e2 = spawn_cell(&mut world, &mut storage, [40, -40]);
    MoveCell::<Layer, 2> { old_c: [0, 0], new_c: [40, -40], label: PhantomData }
        .apply(&mut world, &mut storage);
    assert_eq!(at(&world, &storage, [0, 0]), None);
    assert_eq!(at(&world, &storage, [40, -40]), Some(e));
    assert!(alive(&world, e));
    assert!(!alive(&world, e2));
}

#[test]
fn move_to_the_same_coordinate_changes_nothing() {
    let mut world = World::new();
    let mut storage = CellStorage::<Layer, 2>::new();
    let e = spawn_cell(&mut world, &mut storage, [2, 2]);
    MoveCell::<Layer, 2> { old_c: [2, 2], new_c: [2, 2], label: PhantomData }
        .apply(&mut world, &mut storage);
    assert_eq!(at(&world, &storage, [2, 2]), Some(e));
    assert!(alive(&world, e));
}

#[test]
fn move_from_an_empty_coordinate_changes_nothing() {
    let mut world = World::new();
    let mut storage = CellStorage::<Layer, 2>::new();
    let e2 = spawn_cell(&mut world, &mut storage, [9, 9]);
    MoveCell::<Layer, 2> { old_c: [1, 1], new_c: [9, 9], label: PhantomData }
        .apply(&mut world, &mut storage);
    assert_eq!(at(&world, &storage, [9, 9]), Some(e2));
    assert_eq!(at(&world, &storage, [1, 1]), None);
    assert!(alive(&world, e2));
}

#[test]
fn swap_exchanges_two_occupants() {
    let mut world = World::new();
    let mut storage = CellStorage::<Layer, 2>::new();
    let e1 = spawn_cell(&mut world, &mut storage, [0, 0]);
    let e2 = spawn_cell(&mut world, &mut storage, [-20, 5]);
    SwapCell::<Layer, 2> { cell_c_1: [0, 0], cell_c_2: [-20, 5], label: PhantomData }
        .apply(&mut world, &mut storage);
    assert_eq!(at(&world, &storage, [0, 0]), Some(e2));
    assert_eq!(at(&world, &storage, [-20, 5]), Some(e1));
    assert!(alive(&world, e1));
    assert!(alive(&world, e2));
}

#[test]
fn swap_with_one_occupant_is_a_move() {
    let mut world = World::new();
    let mut storage = CellStorage::<Layer, 2>::new();
    let e1 = spawn_cell(&mut world, &mut storage, [0, 0]);
    SwapCell::<Layer, 2> { cell_c_1: [0, 0], cell_c_2: [33, 33], label: PhantomData }
        .apply(&mut world, &mut storage);
    assert_eq!(at(&world, &storage, [0, 0]), None);
    assert_eq!(at(&world, &storage, [33, 33]), Some(e1));
    SwapCell::<Layer, 2> { cell_c_1: [0, 0], cell_c_2: [33, 33], label: PhantomData }
        .apply(&mut world, &mut storage);
    assert_eq!(at(&world, &storage, [0, 0]), Some(e1));
    assert_eq!(at(&world, &storage, [33, 33]), None);
    assert!(alive(&world, e1));
}

#[test]
fn swap_of_two_empty_coordinates_changes_nothing() {
    let mut world = World::new();
    let mut storage = CellStorage::<Layer, 2>::new();
    SwapCell::<Layer, 2> { cell_c_1: [0, 0], cell_c_2: [1, 1], label: PhantomData }
        .apply(&mut world, &mut storage);
    assert_eq!(world.entities().len(), 0);
    assert_eq!(at(&world, &storage, [0, 0]), None);
}

#[test]
fn take_then_insert_keeps_the_entity() {
    let mut world = World::new();
    let mut storage = CellStorage::<Layer, 2>::new();
    let e = spawn_cell(&mut world, &mut storage, [4, 4]);
    assert_eq!(take_cell(&world, &mut storage, [4, 5]), None);
    assert_eq!(take_cell(&world, &mut storage, [4, 4]), Some(e));
    assert_eq!(take_cell(&world, &mut storage, [4, 4]), None);
    assert!(alive(&world, e));
    assert!(!storage.holds(e));
    insert_cell(&mut world, &mut storage, [-4, -4], e);
    assert_eq!(at(&world, &storage, [-4, -4]), Some(e));
}

#[test]
fn chunks_are_created_once_and_kept_when_empty() {
    let mut world = World::new();
    let mut storage = CellStorage::<Layer, 2>::new();
    let a = spawn_cell(&mut world, &mut storage, [0, 0]);
    let chunk = CellQuery::new(&world, &storage, &any).get_at([0, 0]).unwrap().in_chunk.chunk;
    let b = spawn_cell(&mut world, &mut storage, [15, 15]);
    let same = CellQuery::new(&world, &storage, &any).get_at([15, 15]).unwrap().in_chunk.chunk;
    assert_eq!(chunk, same);
    let c = spawn_cell(&mut world, &mut storage, [16, 15]);
    let next = CellQuery::new(&world, &storage, &any).get_at([16, 15]).unwrap().in_chunk.chunk;
    assert_ne!(chunk, next);
    // map, two chunks, three cells
    assert_eq!(world.entities().len(), 6);
    for cell in [[0, 0], [15, 15]] {
        DespawnCell::<Layer, 2> { cell_c: cell, label: PhantomData }
            .apply(&mut world, &mut storage);
    }
    assert!(alive(&world, chunk));
    assert!(storage.holds(chunk));
    assert!(!alive(&world, a) && !alive(&world, b) && alive(&world, c));
}

#[test]
fn despawn_chunk_destroys_its_cells_and_no_others() {
    let mut world = World::new();
    let mut storage = CellStorage::<Layer, 2>::new();
    let inside: Vec<Entity> =
        [[0, 0], [15, 0], [3, 9]].iter().map(|c| spawn_cell(&mut world, &mut storage, *c)).collect();
    let outside = spawn_cell(&mut world, &mut storage, [16, 0]);
    let chunk = CellQuery::new(&world, &storage, &any).get_at([0, 0]).unwrap().in_chunk.chunk;
    DespawnChunk::<Layer, 2> { chunk_c: [0, 0], label: PhantomData }
        .apply(&mut world, &mut storage);
    for e in inside {
        assert!(!alive(&world, e));
    }
    assert!(!alive(&world, chunk));
    assert!(alive(&world, outside));
    assert_eq!(at(&world, &storage, [0, 0]), None);
    assert_eq!(at(&world, &storage, [16, 0]), Some(outside));
    // despawning it again, or one that never was, changes nothing
    let count = world.entities().len();
    DespawnChunk::<Layer, 2> { chunk_c: [0, 0], label: PhantomData }
        .apply(&mut world, &mut storage);
    DespawnChunk::<Layer, 2> { chunk_c: [9, 9], label: PhantomData }
        .apply(&mut world, &mut storage);
    assert_eq!(world.entities().len(), count);
}

#[test]
fn spawn_chunk_replaces_the_chunk_and_destroys_its_cells() {
    let mut world = World::new();
    let mut storage = CellStorage::<Layer, 2>::new();
    let e = spawn_cell(&mut world, &mut storage, [1, 1]);
    let far = spawn_cell(&mut world, &mut storage, [-1, 1]);
    let old_chunk = CellQuery::new(&world, &storage, &any).get_at([1, 1]).unwrap().in_chunk.chunk;
    let chunk = spawn(&mut world);
    SpawnChunk::<Layer, 2> { chunk_c: [0, 0], chunk_id: chunk, label: PhantomData }
        .apply(&mut world, &mut storage);
    assert!(!alive(&world, e));
    assert!(!alive(&world, old_chunk));
    assert!(alive(&world, chunk));
    assert!(alive(&world, far));
    assert_eq!(at(&world, &storage, [1, 1]), None);
    let e2 = spawn_cell(&mut world, &mut storage, [1, 1]);
    let item = CellQuery::new(&world, &storage, &any).get_at([1, 1]).unwrap();
    assert_eq!(item.entity, e2);
    assert_eq!(item.in_chunk.chunk, chunk);
}

#[test]
fn spawn_chunk_creates_the_map() {
    let mut world = World::new();
    let mut storage = CellStorage::<Layer, 2>::new();
    let chunk = spawn(&mut world);
    SpawnChunk::<Layer, 2> { chunk_c: [2, -2], chunk_id: chunk, label: PhantomData }
        .apply(&mut world, &mut storage);
    assert_eq!(world.entities().len(), 2);
    assert!(storage.holds(chunk));
    let e = spawn_cell(&mut world, &mut storage, [32, -17]);
    let item = CellQuery::new(&world, &storage, &any).get_at([32, -17]).unwrap();
    assert_eq!(item.entity, e);
    assert_eq!(item.in_chunk.chunk, chunk);
    assert_eq!(world.entities().len(), 3);
}

#[test]
fn despawn_map_destroys_everything_it_holds() {
    let mut world = World::new();
    let mut storage = CellStorage::<Layer, 2>::new();
    let bystander = spawn(&mut world);
    let cells: Vec<Entity> = [[0, 0], [100, 100], [-100, 3], [1, 0]]
        .iter()
        .map(|c| spawn_cell(&mut world, &mut storage, *c))
        .collect();
    assert_eq!(world.entities().len(), 1 + 4 + 3 + 1);
    DespawnMap::<Layer, 2> { label: PhantomData }.apply(&mut world, &mut storage);
    for e in cells {
        assert!(!alive(&world, e));
    }
    assert_eq!(world.entities().len(), 1);
    assert!(alive(&world, bystander));
    assert_eq!(at(&world, &storage, [0, 0]), None);
    DespawnMap::<Layer, 2> { label: PhantomData }.apply(&mut world, &mut storage);
    assert_eq!(world.entities().len(), 1);
    // the layer can be used again
    let e = spawn_cell(&mut world, &mut storage, [0, 0]);
    assert_eq!(at(&world, &storage, [0, 0]), Some(e));
}

#[test]
fn group_by_lists_every_position_once_and_chunk_by_chunk() {
    let cells: Vec<[isize; 2]> =
        vec![[0, 0], [16, 0], [1, 1], [-1, 0], [17, 3], [0, 15], [-16, 15], [16, 0]];
    let order = group_by(&cells, 16);
    let mut sorted = order.clone();
    sorted.sort();
    assert_eq!(sorted, (0..cells.len()).collect::<Vec<usize>>());
    let chunk = |i: usize| [cells[i][0].div_euclid(16), cells[i][1].div_euclid(16)];
    // the positions of one chunk stand together and in rising order
    let mut seen: Vec<[isize; 2]> = Vec::new();
    for (p, &i) in order.iter().enumerate() {
        if p > 0 && chunk(order[p - 1]) == chunk(i) {
            assert!(order[p - 1] < i);
        } else {
            assert!(!seen.contains(&chunk(i)));
            seen.push(chunk(i));
        }
    }
    assert_eq!(seen.len(), 3);
    assert_eq!(group_by::<2>(&Vec::new(), 16), Vec::<usize>::new());
}

fn occupancy(world: &World, storage: &CellStorage<Small, 2>) -> Vec<([isize; 2], Entity)> {
    let query = CellQuery::new(world, storage, &any);
    let mut iter = query.iter_in([-6, -6], [6, 6]);
    let mut found = Vec::new();
    while let Some(item) = iter.next() {
        found.push((item.coord.0, item.entity));
    }
    found
}

#[test]
fn batch_spawn_equals_spawning_one_by_one() {
    let coords: Vec<[isize; 2]> =
        vec![[0, 0], [5, 5], [1, 0], [-3, 2], [5, 5], [0, 1], [-3, 2], [4, 5], [-3, 2]];
    // one world works through the batch at once
    let mut world = World::new();
    let mut storage = CellStorage::<Small, 2>::new();
    let before = spawn(&mut world);
    insert_cell(&mut world, &mut storage, [1, 0], before);
    let entities: Vec<Entity> = coords.iter().map(|_| spawn(&mut world)).collect();
    let batch: Vec<([isize; 2], Entity)> =
        coords.iter().copied().zip(entities.iter().copied()).collect();
    insert_cell_batch(&mut world, &mut storage, &batch);
    // the other one cell at a time
    let mut world_2 = World::new();
    let mut storage_2 = CellStorage::<Small, 2>::new();
    let before_2 = spawn(&mut world_2);
    insert_cell(&mut world_2, &mut storage_2, [1, 0], before_2);
    let entities_2: Vec<Entity> = coords.iter().map(|_| spawn(&mut world_2)).collect();
    for (cell, entity) in coords.iter().zip(entities_2.iter()) {
        insert_cell(&mut world_2, &mut storage_2, *cell, *entity);
    }
    assert_eq!(before, before_2);
    assert_eq!(entities, entities_2);
    let found = occupancy(&world, &storage);
    assert_eq!(found, occupancy(&world_2, &storage_2));
    assert_eq!(found.len(), 6);
    assert_eq!(at(&world, &storage, [5, 5]), Some(entities[4]));
    assert_eq!(at(&world, &storage, [-3, 2]), Some(entities[8]));
    assert_eq!(at(&world, &storage, [1, 0]), Some(entities[2]));
    for (i, entity) in entities.iter().enumerate() {
        assert_eq!(alive(&world, *entity), alive(&world_2, entities_2[i]));
        assert_eq!(alive(&world, *entity), ![1, 3, 6].contains(&i));
    }
    assert!(!alive(&world, before));
}

#[test]
fn batch_spawn_spawns_one_entity_for_each_coordinate() {
    let mut world = World::new();
    let mut storage = CellStorage::<Small, 2>::new();
    let spawned = SpawnCellBatch::<Small, 2> {
        cell_cs: vec![[0, 0], [1, 1], [0, 0], [-1, -1]],
        label: PhantomData,
    }
    .apply(&mut world, &mut storage);
    assert_eq!(spawned.len(), 4);
    assert_eq!(at(&world, &storage, [0, 0]), Some(spawned[2]));
    assert_eq!(at(&world, &storage, [1, 1]), Some(spawned[1]));
    assert_eq!(at(&world, &storage, [-1, -1]), Some(spawned[3]));
    assert!(!alive(&world, spawned[0]));
    // the map, two chunks and three cells are left
    assert_eq!(world.entities().len(), 6);
}

#[test]
fn batches_that_place_nothing_change_nothing() {
    let mut world = World::new();
    let mut storage = CellStorage::<Small, 2>::new();
    let spawned =
        SpawnCellBatch::<Small, 2> { cell_cs: Vec::new(), label: PhantomData }
            .apply(&mut world, &mut storage);
    assert!(spawned.is_empty());
    insert_cell_batch(&mut world, &mut storage, &Vec::new());
    MoveCellBatch::<Small, 2> { cell_cs: vec![([0, 0], [1, 1])], label: PhantomData }
        .apply(&mut world, &mut storage);
    SwapCellBatch::<Small, 2> { cell_cs: vec![([0, 0], [1, 1])], label: PhantomData }
        .apply(&mut world, &mut storage);
    DespawnCellBatch::<Small, 2> { cell_cs: vec![[0, 0]], label: PhantomData }
        .apply(&mut world, &mut storage);
    assert_eq!(world.entities().len(), 0);
    assert_eq!(at(&world, &storage, [0, 0]), None);
}

#[test]
fn take_cells_takes_each_coordinate_at_its_first_mention() {
    let mut world = World::new();
    let mut storage = CellStorage::<Small, 2>::new();
    let spawned = SpawnCellBatch::<Small, 2> {
        cell_cs: vec![[0, 0], [1, 1], [4, 4], [-1, -1]],
        label: PhantomData,
    }
    .apply(&mut world, &mut storage);
    let taken = take_cells(
        &world,
        &mut storage,
        &vec![[4, 4], [9, 9], [0, 0], [4, 4], [3, 3], [-1, -1], [0, 0]],
    );
    assert_eq!(taken, vec![([4, 4], spawned[2]), ([0, 0], spawned[0]), ([-1, -1], spawned[3])]);
    assert_eq!(occupancy(&world, &storage), vec![([1, 1], spawned[1])]);
    for e in spawned {
        assert!(alive(&world, e));
    }
    assert!(take_cells(&world, &mut CellStorage::<Small, 2>::new(), &vec![[0, 0]]).is_empty());
}

#[test]
fn batch_despawn_equals_despawning_one_by_one() {
    let coords: Vec<[isize; 2]> = vec![[0, 0], [1, 1], [4, 4], [-1, -1], [2, 0], [5, 4]];
    let doomed: Vec<[isize; 2]> = vec![[4, 4], [7, 7], [0, 0], [4, 4], [5, 4]];
    let mut world = World::new();
    let mut storage = CellStorage::<Small, 2>::new();
    let spawned = SpawnCellBatch::<Small, 2> { cell_cs: coords.clone(), label: PhantomData }
        .apply(&mut world, &mut storage);
    DespawnCellBatch::<Small, 2> { cell_cs: doomed.clone(), label: PhantomData }
        .apply(&mut world, &mut storage);
    let mut world_2 = World::new();
    let mut storage_2 = CellStorage::<Small, 2>::new();
    let spawned_2 = SpawnCellBatch::<Small, 2> { cell_cs: coords, label: PhantomData }
        .apply(&mut world_2, &mut storage_2);
    for cell in doomed {
        DespawnCell::<Small, 2> { cell_c: cell, label: PhantomData }
            .apply(&mut world_2, &mut storage_2);
    }
    assert_eq!(spawned, spawned_2);
    assert_eq!(occupancy(&world, &storage), occupancy(&world_2, &storage_2));
    assert_eq!(
        occupancy(&world, &storage),
        vec![([-1, -1], spawned[3]), ([2, 0], spawned[4]), ([1, 1], spawned[1])]
    );
    for (i, e) in spawned.iter().enumerate() {
        assert_eq!(alive(&world, *e), [1, 3, 4].contains(&i));
        assert_eq!(alive(&world, *e), alive(&world_2, *e));
    }
}

#[test]
fn batch_move_takes_every_source_before_it_places() {
    let mut world = World::new();
    let mut storage = CellStorage::<Small, 2>::new();
    let spawned = SpawnCellBatch::<Small, 2> {
        cell_cs: vec![[0, 0], [1, 0], [2, 0], [5, 5]],
        label: PhantomData,
    }
    .apply(&mut world, &mut storage);
    // a ring of three and a move onto an occupied coordinate that does not move
    MoveCellBatch::<Small, 2> {
        cell_cs: vec![([0, 0], [1, 0]), ([1, 0], [2, 0]), ([2, 0], [0, 0]), ([9, 9], [5, 5])],
        label: PhantomData,
    }
    .apply(&mut world, &mut storage);
    assert_eq!(at(&world, &storage, [1, 0]), Some(spawned[0]));
    assert_eq!(at(&world, &storage, [2, 0]), Some(spawned[1]));
    assert_eq!(at(&world, &storage, [0, 0]), Some(spawned[2]));
    assert_eq!(at(&world, &storage, [5, 5]), Some(spawned[3]));
    for e in spawned {
        assert!(alive(&world, e));
    }
}

#[test]
fn batch_move_follows_the_last_pair_of_a_source() {
    let mut world = World::new();
    let mut storage = CellStorage::<Small, 2>::new();
    let spawned = SpawnCellBatch::<Small, 2> {
        cell_cs: vec![[0, 0], [3, 3], [-2, -2]],
        label: PhantomData,
    }
    .apply(&mut world, &mut storage);
    MoveCellBatch::<Small, 2> {
        cell_cs: vec![([0, 0], [1, 0]), ([-2, -2], [3, 3]), ([0, 0], [0, 4])],
        label: PhantomData,
    }
    .apply(&mut world, &mut storage);
    assert_eq!(at(&world, &storage, [0, 0]), None);
    assert_eq!(at(&world, &storage, [1, 0]), None);
    assert_eq!(at(&world, &storage, [0, 4]), Some(spawned[0]));
    assert_eq!(at(&world, &storage, [3, 3]), Some(spawned[2]));
    assert_eq!(at(&world, &storage, [-2, -2]), None);
    assert!(!alive(&world, spawned[1]));
    assert!(alive(&world, spawned[0]) && alive(&world, spawned[2]));
}

#[test]
fn batch_move_to_one_destination_keeps_the_later_entity() {
    let mut world = World::new();
    let mut storage = CellStorage::<Small, 2>::new();
    let spawned = SpawnCellBatch::<Small, 2> {
        cell_cs: vec![[0, 0], [3, 3]],
        label: PhantomData,
    }
    .apply(&mut world, &mut storage);
    MoveCellBatch::<Small, 2> {
        cell_cs: vec![([3, 3], [8, 8]), ([0, 0], [8, 8])],
        label: PhantomData,
    }
    .apply(&mut world, &mut storage);
    assert_eq!(at(&world, &storage, [8, 8]), Some(spawned[0]));
    assert!(!alive(&world, spawned[1]));
    assert_eq!(occupancy(&world, &storage).len(), 0);
}

#[test]
fn batch_swap_exchanges_the_occupants_of_each_pair() {
    let mut world = World::new();
    let mut storage = CellStorage::<Small, 2>::new();
    let spawned = SpawnCellBatch::<Small, 2> {
        cell_cs: vec![[0, 0], [5, 5], [2, 2]],
        label: PhantomData,
    }
    .apply(&mut world, &mut storage);
    SwapCellBatch::<Small, 2> {
        cell_cs: vec![([0, 0], [5, 5]), ([2, 2], [-3, 3]), ([4, 4], [4, 5])],
        label: PhantomData,
    }
    .apply(&mut world, &mut storage);
    assert_eq!(at(&world, &storage, [0, 0]), Some(spawned[1]));
    assert_eq!(at(&world, &storage, [5, 5]), Some(spawned[0]));
    assert_eq!(at(&world, &storage, [2, 2]), None);
    assert_eq!(at(&world, &storage, [-3, 3]), Some(spawned[2]));
    assert_eq!(at(&world, &storage, [4, 4]), None);
    for e in spawned {
        assert!(alive(&world, e));
    }
}

#[test]
fn batch_swap_lets_a_later_pair_override_an_earlier_one() {
    let mut world = World::new();
    let mut storage = CellStorage::<Small, 2>::new();
    let spawned = SpawnCellBatch::<Small, 2> {
        cell_cs: vec![[0, 0], [1, 1], [2, 2], [3, 3]],
        label: PhantomData,
    }
    .apply(&mut world, &mut storage);
    // the second pair names [0, 0] first again, and the third names [3, 3] second again
    SwapCellBatch::<Small, 2> {
        cell_cs: vec![([0, 0], [1, 1]), ([0, 0], [3, 3]), ([2, 2], [3, 3])],
        label: PhantomData,
    }
    .apply(&mut world, &mut storage);
    assert_eq!(at(&world, &storage, [0, 0]), Some(spawned[0]));
    assert_eq!(at(&world, &storage, [1, 1]), Some(spawned[1]));
    assert_eq!(at(&world, &storage, [2, 2]), Some(spawned[3]));
    assert_eq!(at(&world, &storage, [3, 3]), Some(spawned[2]));
    for e in spawned {
        assert!(alive(&world, e));
    }
}

#[test]
fn batch_swap_of_a_chain_keeps_what_comes_from_the_second_side() {
    let mut world = World::new();
    let mut storage = CellStorage::<Small, 2>::new();
    let spawned = SpawnCellBatch::<Small, 2> {
        cell_cs: vec![[0, 0], [1, 1], [2, 2]],
        label: PhantomData,
    }
    .apply(&mut world, &mut storage);
    SwapCellBatch::<Small, 2> {
        cell_cs: vec![([0, 0], [1, 1]), ([1, 1], [2, 2])],
        label: PhantomData,
    }
    .apply(&mut world, &mut storage);
    // [0, 0] and [1, 1] are taken as first coordinates, [2, 2] as a second one;
    // what came from [2, 2] is placed at [1, 1] after what came from [0, 0]
    assert_eq!(at(&world, &storage, [0, 0]), None);
    assert_eq!(at(&world, &storage, [1, 1]), Some(spawned[2]));
    assert_eq!(at(&world, &storage, [2, 2]), Some(spawned[1]));
    assert!(!alive(&world, spawned[0]));
}

#[test]
fn queued_commands_apply_in_the_order_in_which_they_were_queued() {
    let mut world = World::new();
    let mut storage = CellStorage::<Layer, 2>::new();
    let a = spawn(&mut world);
    let b = spawn(&mut world);
    let chunk = spawn(&mut world);
    let mut commands = CellCommands::<Layer, 2>::new();
    commands.spawn_cell([0, 0], a);
    commands.spawn_cell([1, 1], b);
    commands.move_cell([0, 0], [1, 1]);
    commands.swap_cells([1, 1], [40, 40]);
    commands.despawn_cell([0, 0]);
    commands.spawn_cell_batch(vec![[2, 2], [3, 3]]);
    commands.move_cell_batch(vec![([2, 2], [4, 4])]);
    commands.swap_cell_batch(vec![([3, 3], [4, 4])]);
    commands.despawn_cell_batch(vec![[3, 3]]);
    commands.apply(&mut world, &mut storage);
    assert_eq!(at(&world, &storage, [40, 40]), Some(a));
    assert!(!alive(&world, b));
    assert_eq!(at(&world, &storage, [1, 1]), None);
    assert_eq!(at(&world, &storage, [2, 2]), None);
    assert_eq!(at(&world, &storage, [3, 3]), None);
    let kept = at(&world, &storage, [4, 4]).unwrap();
    assert!(alive(&world, kept));
    // map, two chunks, the cell at [40, 40], the cell at [4, 4] and the spare entity
    assert_eq!(world.entities().len(), 6);

    let mut commands = CellCommands::<Layer, 2>::new();
    commands.spawn_chunk([0, 0], chunk);
    commands.despawn_chunk([2, 2]);
    commands.apply(&mut world, &mut storage);
    assert!(!alive(&world, kept));
    assert!(!alive(&world, a));
    assert!(storage.holds(chunk));

    let mut commands = CellCommands::<Layer, 2>::new();
    commands.despawn_map();
    commands.apply(&mut world, &mut storage);
    assert_eq!(world.entities().len(), 0);
    CellCommands::<Layer, 2>::new().apply(&mut world, &mut storage);
    assert_eq!(world.entities().len(), 0);
}

/// A small generator of numbers that look random and are the same in every run.
struct Numbers(u64);

impl Numbers {
    fn next(&mut self, below: u64) -> u64 {
        self.0 = self.0.wrapping_mul(6364136223846793005).wrapping_add(1442695040888963407);
        (self.0 >> 33) % below
    }

    fn cell(&mut self) -> [isize; 2] {
        [self.next(9) as isize - 4, self.next(9) as isize - 4]
    }
}

#[test]
fn batches_and_single_commands_agree_on_many_worlds() {
    let mut numbers = Numbers(7);
    for _ in 0..40 {
        let spawns: Vec<[isize; 2]> = (0..numbers.next(20)).map(|_| numbers.cell()).collect();
        let despawns: Vec<[isize; 2]> = (0..numbers.next(20)).map(|_| numbers.cell()).collect();
        let more: Vec<[isize; 2]> = (0..numbers.next(20)).map(|_| numbers.cell()).collect();

        let mut world = World::new();
        let mut storage = CellStorage::<Small, 2>::new();
        let first = SpawnCellBatch::<Small, 2> { cell_cs: spawns.clone(), label: PhantomData }
            .apply(&mut world, &mut storage);
        DespawnCellBatch::<Small, 2> { cell_cs: despawns.clone(), label: PhantomData }
            .apply(&mut world, &mut storage);
        let second = SpawnCellBatch::<Small, 2> { cell_cs: more.clone(), label: PhantomData }
            .apply(&mut world, &mut storage);

        let mut world_2 = World::new();
        let mut storage_2 = CellStorage::<Small, 2>::new();
        let mut first_2 = Vec::new();
        for cell in spawns.iter() {
            let entity = spawn(&mut world_2);
            SpawnCell::<Small, 2> { cell_c: *cell, cell_id: entity, label: PhantomData }
                .apply(&mut world_2, &mut storage_2);
            first_2.push(entity);
        }
        for cell in despawns.iter() {
            DespawnCell::<Small, 2> { cell_c: *cell, label: PhantomData }
                .apply(&mut world_2, &mut storage_2);
        }
        let mut second_2 = Vec::new();
        for cell in more.iter() {
            let entity = spawn(&mut world_2);
            SpawnCell::<Small, 2> { cell_c: *cell, cell_id: entity, label: PhantomData }
                .apply(&mut world_2, &mut storage_2);
            second_2.push(entity);
        }

        // the two worlds hand out different entities, so compare by position in the batches
        let name = |first: &Vec<Entity>, second: &Vec<Entity>, entity: Entity| {
            first
                .iter()
                .position(|e| *e == entity)
                .map(|i| (0, i))
                .or(second.iter().position(|e| *e == entity).map(|i| (1, i)))
                .unwrap()
        };
        let left: Vec<([isize; 2], (i32, usize))> = occupancy(&world, &storage)
            .into_iter()
            .map(|(cell, entity)| (cell, name(&first, &second, entity)))
            .collect();
        let right: Vec<([isize; 2], (i32, usize))> = occupancy(&world_2, &storage_2)
            .into_iter()
            .map(|(cell, entity)| (cell, name(&first_2, &second_2, entity)))
            .collect();
        assert_eq!(left, right);
        for (i, entity) in first.iter().enumerate() {
            assert_eq!(alive(&world, *entity), alive(&world_2, first_2[i]));
        }
        for (i, entity) in second.iter().enumerate() {
            assert_eq!(alive(&world, *entity), alive(&world_2, second_2[i]));
        }
    }
}

#[test]
fn commands_work_in_one_and_in_three_dimensions() {
    let mut world = World::new();
    let mut line = CellStorage::<Small, 1>::new();
    let on_line = SpawnCellBatch::<Small, 1> {
        cell_cs: vec![[-3], [-2], [0], [5]],
        label: PhantomData,
    }
    .apply(&mut world, &mut line);
    MoveCell::<Small, 1> { old_c: [-3], new_c: [5], label: PhantomData }
        .apply(&mut world, &mut line);
    assert_eq!(CellQuery::new(&world, &line, &any).get_at([5]).unwrap().entity, on_line[0]);
    assert!(!alive(&world, on_line[3]));
    assert_eq!(CellQuery::new(&world, &line, &any).get_at([-2]).unwrap().index.0, 0);

    let mut space = CellStorage::<Small, 3>::new();
    let in_space = SpawnCellBatch::<Small, 3> {
        cell_cs: vec![[0, 0, 0], [1, 1, 1], [-1, -1, -1], [2, 0, 0]],
        label: PhantomData,
    }
    .apply(&mut world, &mut space);
    SwapCell::<Small, 3> { cell_c_1: [1, 1, 1], cell_c_2: [-1, -1, -1], label: PhantomData }
        .apply(&mut world, &mut space);
    let query = CellQuery::new(&world, &space, &any);
    assert_eq!(query.get_at([1, 1, 1]).unwrap().entity, in_space[2]);
    assert_eq!(query.get_at([-1, -1, -1]).unwrap().entity, in_space[1]);
    assert_eq!(query.get_at([1, 1, 1]).unwrap().index.0, 7);
    assert_eq!(
        query.get_at([0, 0, 0]).unwrap().in_chunk.chunk,
        query.get_at([1, 1, 1]).unwrap().in_chunk.chunk
    );
    assert_ne!(
        query.get_at([0, 0, 0]).unwrap().in_chunk.chunk,
        query.get_at([2, 0, 0]).unwrap().in_chunk.chunk
    );
    // the two layers do not share a map
    assert!(!line.holds(in_space[0]));
    assert!(!space.holds(on_line[0]));
}
