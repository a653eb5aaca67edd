use bevy::ecs::world::World;
use bevy_cells::cells::cell_query::CellQuery;
use bevy_cells::cells::commands::cell_batch::SpawnCellBatch;
use bevy_cells::cells::world::Entity;
use bevy_cells::cells::{CellMapLabel, CellStorage};
use std::marker::PhantomData;

fn any(_: Entity) -> bool {
    true
}

struct Layer;

impl CellMapLabel for Layer {
    const CHUNK_SIZE: usize = 4;
}

fn filled(world: &mut World, cells: Vec<[isize; 2]>) -> (CellStorage<Layer, 2>, Vec<Entity>) {
    let mut storage = CellStorage::<Layer, 2>::new();
    let spawned =
        SpawnCellBatch::<Layer, 2> { cell_cs: cells, label: PhantomData }.apply(world, &mut storage);
    (storage, spawned)
}

#[test]
fn get_at_of_a_layer_without_map_finds_nothing() {
    let world = World::new();
    let storage = CellStorage::<Layer, 2>::new();
    let mut query = CellQuery::new(&world, &storage, &any);
    assert!(query.get_at([0, 0]).is_none());
    assert!(query.get_at_mut([0, 0]).is_none());
    assert!(query.iter_in([-3, -3], [3, 3]).next().is_none());
}

#[test]
fn iter_in_yields_the_occupied_cells_in_row_major_order() {
    let mut world = World::new();
    let (storage, spawned) =
        filled(&mut world, vec![[2, 1], [0, 0], [-1, 1], [5, 5], [1, 0], [2, -1], [-2, 0]]);
    let query = CellQuery::new(&world, &storage, &any);
    let mut iter = query.iter_in([2, 1], [-1, 0]);
    let mut found = Vec::new();
    while let Some(item) = iter.next() {
        found.push((item.coord.0, item.entity));
    }
    assert_eq!(
        found,
        vec![([0, 0], spawned[1]), ([1, 0], spawned[4]), ([-1, 1], spawned[2]), ([2, 1], spawned[0])]
    );
    assert!(iter.next().is_none());
    // a fresh call walks the box again
    assert_eq!(query.iter_in([2, 1], [-1, 0]).next().unwrap().entity, spawned[1]);
}

#[test]
fn iter_in_of_a_single_point_yields_it_once() {
    let mut world = World::new();
    let (storage, spawned) = filled(&mut world, vec![[7, -7]]);
    let query = CellQuery::new(&world, &storage, &any);
    let mut iter = query.iter_in([7, -7], [7, -7]);
    assert_eq!(iter.next().unwrap().entity, spawned[0]);
    assert!(iter.next().is_none());
    let mut empty = query.iter_in([7, -6], [7, -6]);
    assert!(empty.next().is_none());
}

#[test]
fn iter_in_mut_walks_like_iter_in() {
    let mut world = World::new();
    let (storage, spawned) = filled(&mut world, vec![[0, 0], [1, 1], [3, 0]]);
    let mut query = CellQuery::new(&world, &storage, &any);
    let mut iter = query.iter_in_mut([0, 0], [3, 1]);
    let mut found = Vec::new();
    while let Some(item) = iter.next() {
        found.push(item.entity);
    }
    assert_eq!(found, vec![spawned[0], spawned[2], spawned[1]]);
}

#[test]
fn iter_in_chunk_yields_the_cells_of_that_chunk() {
    let mut world = World::new();
    let (storage, spawned) =
        filled(&mut world, vec![[-4, -4], [-1, -1], [0, 0], [-5, -1], [-1, 0], [-2, -3]]);
    let mut query = CellQuery::new(&world, &storage, &any);
    let mut found = Vec::new();
    let mut iter = query.iter_in_chunk([-1, -1]);
    while let Some(item) = iter.next() {
        found.push((item.coord.0, item.index.0, item.entity));
    }
    assert_eq!(
        found,
        vec![([-4, -4], 0, spawned[0]), ([-2, -3], 6, spawned[5]), ([-1, -1], 15, spawned[1])]
    );
    let mut iter = query.iter_in_chunk_mut([0, 0]);
    assert_eq!(iter.next().unwrap().entity, spawned[2]);
    assert!(iter.next().is_none());
}

#[test]
fn iter_in_chunks_yields_the_cells_of_the_range() {
    let mut world = World::new();
    let (storage, spawned) =
        filled(&mut world, vec![[-4, -4], [7, 3], [0, 0], [8, 0], [-5, 0], [3, 4], [2, -4]]);
    let mut query = CellQuery::new(&world, &storage, &any);
    let mut found = Vec::new();
    let mut iter = query.iter_in_chunks([-1, -1], [1, 0]);
    while let Some(item) = iter.next() {
        found.push(item.entity);
    }
    assert_eq!(found, vec![spawned[0], spawned[6], spawned[2], spawned[1]]);
    let readonly = query.to_readonly();
    assert_eq!(readonly.get_at([3, 4]).unwrap().entity, spawned[5]);
    let mut iter = query.iter_in_chunks_mut([0, 1], [0, 1]);
    assert_eq!(iter.next().unwrap().entity, spawned[5]);
    assert!(iter.next().is_none());
}

#[test]
fn queries_work_in_three_dimensions() {
    struct Cube;
    impl CellMapLabel for Cube {
        const CHUNK_SIZE: usize = 3;
    }
    let mut world = World::new();
    let mut storage = CellStorage::<Cube, 3>::new();
    let spawned = SpawnCellBatch::<Cube, 3> {
        cell_cs: vec![[0, 0, 0], [2, 2, 2], [-1, -1, -1], [1, 2, 0], [3, 0, 0]],
        label: PhantomData,
    }
    .apply(&mut world, &mut storage);
    let query = CellQuery::new(&world, &storage, &any);
    assert_eq!(query.get_at([2, 2, 2]).unwrap().index.0, 26);
    assert_eq!(query.get_at([1, 2, 0]).unwrap().index.0, 7);
    assert_eq!(query.get_at([-1, -1, -1]).unwrap().index.0, 26);
    let mut iter = query.iter_in_chunk([0, 0, 0]);
    let mut found = Vec::new();
    while let Some(item) = iter.next() {
        found.push(item.entity);
    }
    assert_eq!(found, vec![spawned[0], spawned[3], spawned[1]]);
}

#[test]
fn queries_hand_out_only_what_passes_their_filter() {
    let mut world = World::new();
    let (storage, spawned) = filled(&mut world, vec![[0, 0], [1, 0], [2, 0], [3, 0]]);
    let odd = [spawned[1], spawned[3]];
    let filter = |entity: Entity| odd.contains(&entity);
    let mut query = CellQuery::new(&world, &storage, &filter);
    assert!(query.get_at([0, 0]).is_none());
    assert_eq!(query.get_at([1, 0]).unwrap().entity, spawned[1]);
    assert!(query.get_at_mut([2, 0]).is_none());
    assert_eq!(query.to_readonly().get_at([3, 0]).unwrap().entity, spawned[3]);
    let mut found = Vec::new();
    let mut iter = query.iter_in([0, 0], [3, 0]);
    while let Some(item) = iter.next() {
        found.push(item.entity);
    }
    assert_eq!(found, vec![spawned[1], spawned[3]]);
    let none = |_: Entity| false;
    assert!(CellQuery::new(&world, &storage, &none).iter_in_chunk([0, 0]).next().is_none());
}
