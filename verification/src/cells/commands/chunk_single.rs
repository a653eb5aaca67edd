//! The commands on a whole chunk: spawn and despawn.
use crate::cells::commands::{remove_chunk, remove_map, restore_map, spawn_or_remove_map};
use crate::cells::coords::{chunk_slots, coord_ints, slot_count};
use crate::cells::world::{
    contains, destroy_all, exists_in, gone_from, keeps_undespawnable, only_despawned, Entity,
};
use crate::cells::{
    lemma_without_cell, valid_layer, CellMapLabel, CellStorage, Chunk, ChunkCoord, ChunkEntry,
    ChunkView, IndexView, Role,
};
use bevy::ecs::world::World;
use std::marker::PhantomData;
use vstd::prelude::*;

verus! {

/// Makes an entity the chunk at a chunk coordinate.
pub struct SpawnChunk<L, const N: usize> {
    pub chunk_c: [isize; N],
    pub chunk_id: Entity,
    pub label: PhantomData<L>,
}

impl<L: CellMapLabel, const N: usize> SpawnChunk<L, N> {
    /// The entity can become a chunk: it exists and it is neither the map
    /// nor a chunk of the layer yet.
    pub open spec fn placeable(self, world: World, storage: CellStorage<L, N>) -> bool {
        exists_in(world, self.chunk_id) && !storage@.is_map_or_chunk(self.chunk_id)
    }

    /// The empty chunk that the command puts into the map.
    pub open spec fn fresh_chunk(self) -> ChunkView {
        ChunkView {
            id: self.chunk_id,
            cells: Seq::new(slot_count(L::CHUNK_SIZE, N as nat) as nat, |i: int| None::<Entity>),
        }
    }

    /// What making the entity the chunk at the chunk coordinate makes of a
    /// world and of an index that does not hold the entity: the map has the
    /// empty chunk there and is created where it is missing, the chunk that
    /// was there is gone with every entity in its slots, and every other
    /// entity is still there.
    pub open spec fn created(
        self,
        world_before: World,
        before: IndexView,
        world_after: World,
        after: IndexView,
    ) -> bool {
        &&& after.chunks == before.chunks.insert(coord_ints(self.chunk_c), self.fresh_chunk())
        &&& after.map is Some
        &&& before.map is Some ==> after.map == before.map
        &&& before.map is None ==> !exists_in(world_before, after.map.unwrap())
        &&& forall|entity: Entity|
            before.chunk_holds(coord_ints(self.chunk_c), entity) ==> gone_from(world_after, entity)
        &&& forall|entity: Entity|
            exists_in(world_before, entity) && !before.chunk_holds(
                coord_ints(self.chunk_c),
                entity,
            ) ==> #[trigger] exists_in(world_after, entity)
    }

    /// What applying the command makes of a world and the index of the layer.
    ///
    /// An entity that does not exist, and one that is the map or a chunk of
    /// the layer already, does not become a chunk, and nothing changes. Any
    /// other entity is taken out of the slot in which it sits, if it sits in
    /// one, and becomes the chunk at the chunk coordinate.
    pub open spec fn applied(
        self,
        world_before: World,
        before: CellStorage<L, N>,
        world_after: World,
        after: CellStorage<L, N>,
    ) -> bool {
        &&& after.wf(world_after)
        &&& keeps_undespawnable(world_before, world_after)
        &&& !exists_in(world_before, self.chunk_id) ==> world_after == world_before && after@
            == before@
        &&& before@.is_map_or_chunk(self.chunk_id) ==> world_after == world_before && after@
            == before@
        &&& self.placeable(world_before, before) ==> self.created(
            world_before,
            before@.without_cell(self.chunk_id),
            world_after,
            after@,
        )
    }

    /// Puts a chunk of empty slots, with the given entity, at the chunk
    /// coordinate, and creates the map where it is missing. The chunk that
    /// was there before is despawned with every entity in its slots. An
    /// entity that sits in a slot of the layer is taken from there first.
    /// Does nothing for an entity that does not exist or that is the map or
    /// a chunk of the layer already.
    pub fn apply(self, world: &mut World, storage: &mut CellStorage<L, N>)
        requires
            valid_layer::<L, N>(),
            old(storage).wf(*old(world)),
        ensures
            self.applied(*old(world), *old(storage), *final(world), *final(storage)),
    {
        if !contains(world, self.chunk_id) {
            return ;
        }
        proof {
            lemma_without_cell(old(storage)@, self.chunk_id, *world, L::CHUNK_SIZE, N as nat);
        }
        storage.release_cell(self.chunk_id);
        let ghost released = storage@;
        if storage.holds(self.chunk_id) {
            // the map or a chunk of the layer: it sits in no slot, so nothing was released
            proof {
                let role = choose|role: Role| released.holder(role) == Some(self.chunk_id);
                assert(old(storage)@.holder(role) == Some(self.chunk_id));
                match role {
                    Role::MapEntity => {},
                    Role::ChunkAt(place) => {
                        assert(old(storage)@.chunk_at(place) == Some(self.chunk_id));
                    },
                    Role::CellAt(place, slot) => {},
                }
            }
            return ;
        }
        proof {
            if old(storage)@.map == Some(self.chunk_id) {
                assert(released.holder(Role::MapEntity) == Some(self.chunk_id));
            } else if old(storage)@.is_map_or_chunk(self.chunk_id) {
                let place = choose|place: Seq<int>|
                    #[trigger] old(storage)@.chunk_at(place) == Some(self.chunk_id);
                assert(released.holder(Role::ChunkAt(place)) == Some(self.chunk_id));
            }
        }
        self.create(world, storage);
    }

    /// Makes the entity, which exists and which the index does not hold, the
    /// chunk at the chunk coordinate.
    fn create(self, world: &mut World, storage: &mut CellStorage<L, N>)
        requires
            valid_layer::<L, N>(),
            old(storage).wf(*old(world)),
            exists_in(*old(world), self.chunk_id),
            !old(storage).tracks(self.chunk_id),
        ensures
            final(storage).wf(*final(world)),
            keeps_undespawnable(*old(world), *final(world)),
            self.created(*old(world), old(storage)@, *final(world), final(storage)@),
    {
        let ghost before = old(storage)@;
        let ghost place = coord_ints(self.chunk_c);
        let (map_id, mut map) = spawn_or_remove_map::<L, N>(world, storage);
        let ghost with_map = IndexView { map: Some(map_id), chunks: map@ };
        let ghost world_1 = *world;
        proof {
            assert forall|role: Role| role != Role::MapEntity implies #[trigger] with_map.holder(
                role,
            ) == before.holder(role) by {}
        }

        let ghost mut gone: Set<Entity> = Set::empty();
        if let Some(chunk_info) = remove_chunk::<L, N>(&mut map, self.chunk_c) {
            let mut doomed: Vec<Entity> = Vec::new();
            chunk_info.collect(&mut doomed);
            proof {
                gone = doomed@.to_set();
                assert forall|i: int| 0 <= i < doomed@.len() implies exists_in(
                    *world,
                    #[trigger] doomed@[i],
                ) by {
                    let entity = doomed@[i];
                    assert(doomed@.contains(entity));
                    lemma_chunk_holds_role(with_map, place, entity);
                }
            }
            destroy_all(world, &doomed);
            proof {
                assert forall|entity: Entity|
                    before.chunk_holds(place, entity) implies gone_from(*world, entity) by {
                    assert(doomed@.contains(entity));
                    let i = choose|i: int| 0 <= i < doomed@.len() && doomed@[i] == entity;
                    assert(gone_from(*world, doomed@[i]));
                }
            }
        }
        proof {
            assert(only_despawned(world_1, *world, gone));
            assert forall|entity: Entity| gone.contains(entity) implies with_map.chunk_holds(
                place,
                entity,
            ) by {}
        }
        let ghost rest = IndexView { map: Some(map_id), chunks: map@ };
        let chunk = Chunk::new(chunk_slots::<N>(L::CHUNK_SIZE));
        let entry = ChunkEntry { coord: ChunkCoord(self.chunk_c), id: self.chunk_id, chunk };
        let ghost after = rest.with_chunk(place, entry@);
        proof {
            assert(after.chunks =~= before.chunks.insert(place, self.fresh_chunk()));
            assert forall|role: Role| (#[trigger] rest.holder(role)) is Some
                implies with_map.holder(
                role,
            ) == rest.holder(role) && !with_map.chunk_holds(place, rest.holder(role).unwrap()) by {
                let entity = rest.holder(role).unwrap();
                if with_map.chunk_holds(place, entity) {
                    lemma_chunk_holds_role(with_map, place, entity);
                }
            }
            assert forall|role: Role| (#[trigger] after.holder(role)) is Some implies {
                ||| role == Role::ChunkAt(place)
                ||| after.holder(role) == rest.holder(role)
            } by {}
            assert forall|role: Role| (#[trigger] after.holder(role)) is Some implies exists_in(
                *world,
                after.holder(role).unwrap(),
            ) by {
                let entity = after.holder(role).unwrap();
                if role != Role::ChunkAt(place) {
                    assert(rest.holder(role) == Some(entity));
                    assert(exists_in(world_1, entity));
                    assert(!gone.contains(entity));
                } else {
                    assert(entity == self.chunk_id);
                    assert(exists_in(world_1, entity));
                    if gone.contains(entity) {
                        lemma_chunk_holds_role(with_map, place, entity);
                    }
                }
            }
            assert forall|a: Role, b: Role|
                (#[trigger] after.holder(a)) is Some && after.holder(a) == #[trigger] after.holder(
                    b,
                ) implies a == b by {
                let anchor = Role::ChunkAt(place);
                if a != anchor && b != anchor {
                    assert(with_map.holder(a) == with_map.holder(b));
                } else if a != anchor {
                    assert(with_map.holder(a) == Some(self.chunk_id));
                    if a != Role::MapEntity {
                        assert(before.holder(a) == Some(self.chunk_id));
                    }
                } else if b != anchor {
                    assert(with_map.holder(b) == Some(self.chunk_id));
                    if b != Role::MapEntity {
                        assert(before.holder(b) == Some(self.chunk_id));
                    }
                }
            }
        }
        map.put(entry);
        restore_map(storage, map_id, map);
    }
}

/// An entity that the chunk at `place` holds is held in a role of that chunk.
pub proof fn lemma_chunk_holds_role(index: IndexView, place: Seq<int>, entity: Entity)
    requires
        index.chunk_holds(place, entity),
    ensures
        exists|role: Role|
            index.holder(role) == Some(entity) && (role == Role::ChunkAt(place) || exists|slot: int|
                role == Role::CellAt(place, slot)),
{
    if index.chunks[place].id == entity {
        assert(index.holder(Role::ChunkAt(place)) == Some(entity));
    } else {
        let slot = choose|slot: int|
            0 <= slot < index.chunks[place].cells.len() && index.chunks[place].cells[slot] == Some(
                entity,
            );
        assert(index.holder(Role::CellAt(place, slot)) == Some(entity));
    }
}

/// Despawns the chunk at a chunk coordinate.
pub struct DespawnChunk<L, const N: usize> {
    pub chunk_c: [isize; N],
    pub label: PhantomData<L>,
}

impl<L: CellMapLabel, const N: usize> DespawnChunk<L, N> {
    /// What applying the command makes of a world and the index of the layer.
    pub open spec fn applied(
        self,
        world_before: World,
        before: CellStorage<L, N>,
        world_after: World,
        after: CellStorage<L, N>,
    ) -> bool {
        &&& after.wf(world_after)
        &&& keeps_undespawnable(world_before, world_after)
        &&& after@ == before@.without_chunk(coord_ints(self.chunk_c))
        &&& forall|entity: Entity|
            before@.chunk_holds(coord_ints(self.chunk_c), entity) ==> gone_from(
                world_after,
                entity,
            )
        &&& forall|entity: Entity|
            exists_in(world_before, entity) && !before@.chunk_holds(
                coord_ints(self.chunk_c),
                entity,
            ) ==> #[trigger] exists_in(world_after, entity)
        &&& !before@.chunks.dom().contains(coord_ints(self.chunk_c)) ==> world_after == world_before
    }

    /// Takes the chunk at the chunk coordinate out of the map and despawns
    /// it with every entity in its slots. Does nothing where the map has no
    /// chunk there.
    pub fn apply(self, world: &mut World, storage: &mut CellStorage<L, N>)
        requires
            valid_layer::<L, N>(),
            old(storage).wf(*old(world)),
        ensures
            self.applied(*old(world), *old(storage), *final(world), *final(storage)),
    {
        let ghost before = old(storage)@;
        let ghost place = coord_ints(self.chunk_c);
        let (map_id, mut map) = match remove_map::<L, N>(storage) {
            Some(map_info) => map_info,
            None => {
                assert(before.without_chunk(place).chunks =~= before.chunks);
                return ;
            },
        };
        if let Some(chunk_info) = remove_chunk::<L, N>(&mut map, self.chunk_c) {
            let mut doomed: Vec<Entity> = Vec::new();
            chunk_info.collect(&mut doomed);
            proof {
                assert forall|i: int| 0 <= i < doomed@.len() implies exists_in(
                    *world,
                    #[trigger] doomed@[i],
                ) by {
                    let entity = doomed@[i];
                    assert(doomed@.contains(entity));
                    lemma_chunk_holds_role(before, place, entity);
                }
            }
            destroy_all(world, &doomed);
            proof {
                let after = before.without_chunk(place);
                assert forall|entity: Entity|
                    before.chunk_holds(place, entity) implies gone_from(*world, entity) by {
                    assert(doomed@.contains(entity));
                    let i = choose|i: int| 0 <= i < doomed@.len() && doomed@[i] == entity;
                    assert(gone_from(*world, doomed@[i]));
                }
                assert forall|role: Role| (#[trigger] after.holder(role)) is Some
                    implies before.holder(
                    role,
                ) == after.holder(role)
                    && !before.chunk_holds(place, after.holder(role).unwrap()) by {
                    let entity = after.holder(role).unwrap();
                    if before.chunk_holds(place, entity) {
                        lemma_chunk_holds_role(before, place, entity);
                    }
                }
                assert forall|a: Role, b: Role|
                    (#[trigger] after.holder(a)) is Some && after.holder(a)
                        == #[trigger] after.holder(b) implies a == b by {
                    assert(before.holder(a) == before.holder(b));
                }
            }
        } else {
            assert(before.without_chunk(place).chunks =~= before.chunks);
        }
        restore_map(storage, map_id, map);
    }
}

} // verus!
