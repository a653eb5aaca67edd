//! The command on a whole map: despawn.
use crate::cells::commands::remove_map;
use crate::cells::world::{destroy_all, exists_in, gone_from, keeps_undespawnable, Entity};
use crate::cells::{lemma_push_contains, valid_layer, CellMapLabel, CellStorage, IndexView, Role};
use bevy::ecs::world::World;
use std::marker::PhantomData;
use vstd::prelude::*;

verus! {

/// Despawns the map of a layer.
pub struct DespawnMap<L, const N: usize> {
    pub label: PhantomData<L>,
}

impl<L: CellMapLabel, const N: usize> DespawnMap<L, N> {
    /// What applying the command makes of a world and the index of the layer.
    pub open spec fn applied(
        self,
        world_before: World,
        before: CellStorage<L, N>,
        world_after: World,
        after: CellStorage<L, N>,
    ) -> bool {
        &&& after.wf(world_after)
        &&& keeps_undespawnable(world_before, world_after)
        &&& after@ == IndexView::empty()
        &&& forall|entity: Entity| before.tracks(entity) ==> gone_from(world_after, entity)
        &&& forall|entity: Entity|
            exists_in(world_before, entity) && !before.tracks(entity) ==> #[trigger] exists_in(
                world_after,
                entity,
            )
        &&& before@.map is None ==> world_after == world_before
    }

    /// Despawns the map with every chunk and every cell that it holds, and
    /// leaves the layer without a map. Does nothing where the layer has none.
    pub fn apply(self, world: &mut World, storage: &mut CellStorage<L, N>)
        requires
            valid_layer::<L, N>(),
            old(storage).wf(*old(world)),
        ensures
            self.applied(*old(world), *old(storage), *final(world), *final(storage)),
    {
        let ghost before = old(storage)@;
        let (map_id, mut map) = match remove_map::<L, N>(storage) {
            Some(map_info) => map_info,
            None => {
                assert forall|entity: Entity| !before.tracks(entity) by {
                    assert forall|role: Role| before.holder(role) != Some(entity) by {}
                }
                return ;
            },
        };
        let mut doomed: Vec<Entity> = Vec::new();
        while map.len() > 0
            invariant
                map.wf(),
                forall|place: Seq<int>| #[trigger]
                    map@.dom().contains(place) ==> before.chunks.dom().contains(place)
                        && before.chunks[place] == map@[place],
                forall|entity: Entity| #[trigger]
                    doomed@.contains(entity) <==> exists|place: Seq<int>|
                        !map@.dom().contains(place) && before.chunk_holds(place, entity),
            decreases map.count(),
        {
            let ghost rest = map@;
            let ghost so_far = doomed@;
            let chunk_info = map.take_any().unwrap();
            chunk_info.collect(&mut doomed);
            proof {
                let taken = chunk_info.place();
                assert forall|entity: Entity| #[trigger]
                    doomed@.contains(entity) <==> exists|place: Seq<int>|
                        !map@.dom().contains(place) && before.chunk_holds(place, entity) by {
                    if so_far.contains(entity) {
                        let place = choose|place: Seq<int>|
                            !rest.dom().contains(place) && before.chunk_holds(place, entity);
                        assert(!map@.dom().contains(place) && before.chunk_holds(place, entity));
                    }
                    if chunk_info@.holds(entity) {
                        assert(!map@.dom().contains(taken) && before.chunk_holds(taken, entity));
                    }
                    if exists|place: Seq<int>|
                        !map@.dom().contains(place) && before.chunk_holds(place, entity) {
                        let place = choose|place: Seq<int>|
                            !map@.dom().contains(place) && before.chunk_holds(place, entity);
                        if place != taken {
                            assert(!rest.dom().contains(place)
                                && before.chunk_holds(place, entity));
                        }
                    }
                }
            }
        }
        let ghost chunks_only = doomed@;
        doomed.push(map_id);
        proof {
            assert(map@ =~= Map::<Seq<int>, crate::cells::ChunkView>::empty()) by {
                assert(map.count() == 0);
                map.lemma_count_zero();
            }
            assert forall|entity: Entity| #[trigger]
                doomed@.contains(entity) <==> before.tracks(entity) by {
                lemma_push_contains(chunks_only, map_id, entity);
                if chunks_only.contains(entity) {
                    let place = choose|place: Seq<int>|
                        !map@.dom().contains(place) && before.chunk_holds(place, entity);
                    crate::cells::commands::chunk_single::lemma_chunk_holds_role(
                        before,
                        place,
                        entity,
                    );
                }
                if entity == map_id {
                    assert(before.holder(Role::MapEntity) == Some(entity));
                }
                if before.tracks(entity) {
                    let role = choose|role: Role| before.holder(role) == Some(entity);
                    match role {
                        Role::MapEntity => {},
                        Role::ChunkAt(place) => {
                            assert(!map@.dom().contains(place)
                                && before.chunk_holds(place, entity));
                        },
                        Role::CellAt(place, slot) => {
                            assert(!map@.dom().contains(place)
                                && before.chunk_holds(place, entity));
                        },
                    }
                }
            }
            assert forall|i: int| 0 <= i < doomed@.len() implies exists_in(
                *world,
                #[trigger] doomed@[i],
            ) by {
                let entity = doomed@[i];
                assert(doomed@.contains(entity));
                assert(before.tracks(entity));
                let role = choose|role: Role| before.holder(role) == Some(entity);
                assert(before.holder(role) is Some);
            }
        }
        destroy_all(world, &doomed);
        proof {
            assert forall|entity: Entity| before.tracks(entity) implies gone_from(
                *world,
                entity,
            ) by {
                assert(doomed@.contains(entity));
                let i = choose|i: int| 0 <= i < doomed@.len() && doomed@[i] == entity;
                assert(gone_from(*world, doomed@[i]));
            }
        }
    }
}

} // verus!
