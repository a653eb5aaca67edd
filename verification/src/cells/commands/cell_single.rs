//! The commands on a single cell: spawn, despawn, move and swap.
use crate::cells::commands::{
    all_survive, cell_inserted, cell_role, insert_cell, is_cell_role, lemma_cell_role_injective,
    take_cell,
};
use crate::cells::coords::coord_ints;
use crate::cells::world::{
    contains, destroy, exists_in, gone_from, keeps_undespawnable, Entity,
};
use crate::cells::{
    lemma_without_cell, same_coord, valid_layer, CellMapLabel, CellStorage, Role,
};
use bevy::ecs::world::World;
use std::marker::PhantomData;
use vstd::prelude::*;

verus! {

/// Places an entity at a cell coordinate.
pub struct SpawnCell<L, const N: usize> {
    pub cell_c: [isize; N],
    pub cell_id: Entity,
    pub label: PhantomData<L>,
}

impl<L: CellMapLabel, const N: usize> SpawnCell<L, N> {
    /// The entity can be placed: it exists and it is neither the map nor a
    /// chunk of the layer.
    pub open spec fn placeable(self, world: World, storage: CellStorage<L, N>) -> bool {
        exists_in(world, self.cell_id) && !storage@.is_map_or_chunk(self.cell_id)
    }

    /// What applying the command makes of a world and the index of the layer.
    ///
    /// An entity that does not exist, and one that is the map or a chunk of
    /// the layer, is not placed, and nothing changes. Any other entity sits
    /// at the coordinate afterwards, and nowhere else: where it sat at
    /// another coordinate, that coordinate is empty. Apart from that the index
    /// and the world change as by placing the entity in the index without it.
    pub open spec fn applied(
        self,
        world_before: World,
        before: CellStorage<L, N>,
        world_after: World,
        after: CellStorage<L, N>,
    ) -> bool {
        &&& after.wf(world_after)
        &&& keeps_undespawnable(world_before, world_after)
        &&& !exists_in(world_before, self.cell_id) ==> world_after == world_before && after@
            == before@
        &&& before@.is_map_or_chunk(self.cell_id) ==> world_after == world_before && after@
            == before@
        &&& self.placeable(world_before, before) ==> {
            &&& after.occupant(coord_ints(self.cell_c)) == Some(self.cell_id)
            &&& forall|cell: Seq<int>|
                cell != coord_ints(self.cell_c) ==> after.occupant(cell) == (if before.occupant(
                    cell,
                ) == Some(self.cell_id) {
                    None
                } else {
                    before.occupant(cell)
                })
            &&& cell_inserted::<L>(
                before@.without_cell(self.cell_id),
                world_before,
                after@,
                world_after,
                coord_ints(self.cell_c),
                self.cell_id,
            )
        }
    }

    /// Places the entity at the coordinate and despawns the entity that sat
    /// there before. An entity that sits at another coordinate is taken
    /// from there first. Does nothing for an entity that does not exist or
    /// that is the map or a chunk of the layer.
    pub fn apply(self, world: &mut World, storage: &mut CellStorage<L, N>)
        requires
            valid_layer::<L, N>(),
            old(storage).wf(*old(world)),
        ensures
            self.applied(*old(world), *old(storage), *final(world), *final(storage)),
    {
        if !contains(world, self.cell_id) {
            return ;
        }
        proof {
            lemma_without_cell(old(storage)@, self.cell_id, *world, L::CHUNK_SIZE, N as nat);
        }
        storage.release_cell(self.cell_id);
        let ghost released = storage@;
        if storage.holds(self.cell_id) {
            // the map or a chunk of the layer: it sits in no slot, so nothing was released
            proof {
                let role = choose|role: Role| released.holder(role) == Some(self.cell_id);
                assert(old(storage)@.holder(role) == Some(self.cell_id));
                match role {
                    Role::MapEntity => {},
                    Role::ChunkAt(place) => {
                        assert(old(storage)@.chunk_at(place) == Some(self.cell_id));
                    },
                    Role::CellAt(place, slot) => {},
                }
            }
            return ;
        }
        proof {
            if old(storage)@.map == Some(self.cell_id) {
                assert(released.holder(Role::MapEntity) == Some(self.cell_id));
            } else if old(storage)@.is_map_or_chunk(self.cell_id) {
                let place = choose|place: Seq<int>|
                    #[trigger] old(storage)@.chunk_at(place) == Some(self.cell_id);
                assert(released.holder(Role::ChunkAt(place)) == Some(self.cell_id));
            }
        }
        insert_cell::<L, N>(world, storage, self.cell_c, self.cell_id);
        proof {
            assert forall|cell: Seq<int>| cell != coord_ints(self.cell_c) implies storage.occupant(
                cell,
            ) == (if old(storage).occupant(cell) == Some(self.cell_id) {
                None
            } else {
                old(storage).occupant(cell)
            }) by {
                assert(storage.occupant(cell) == released.occupant(cell, L::CHUNK_SIZE as int));
            }
        }
    }
}

/// Despawns the entity at a cell coordinate.
pub struct DespawnCell<L, const N: usize> {
    pub cell_c: [isize; N],
    pub label: PhantomData<L>,
}

impl<L: CellMapLabel, const N: usize> DespawnCell<L, N> {
    /// What applying the command makes of a world and the index of the layer.
    pub open spec fn applied(
        self,
        world_before: World,
        before: CellStorage<L, N>,
        world_after: World,
        after: CellStorage<L, N>,
    ) -> bool {
        &&& after.wf(world_after)
        &&& keeps_undespawnable(world_before, world_after)
        &&& after.occupant(coord_ints(self.cell_c)) is None
        &&& forall|cell: Seq<int>|
            cell != coord_ints(self.cell_c) ==> after.occupant(cell) == before.occupant(cell)
        &&& forall|role: Role|
            #![trigger after@.holder(role)]
            #![trigger before@.holder(role)]
            role != cell_role::<L>(coord_ints(self.cell_c)) ==> after@.holder(role)
                == before@.holder(role)
        &&& forall|entity: Entity|
            exists_in(world_before, entity) && before.occupant(coord_ints(self.cell_c))
                != Some(entity) ==> #[trigger] exists_in(world_after, entity)
        &&& match before.occupant(coord_ints(self.cell_c)) {
            Some(entity) => gone_from(world_after, entity),
            None => world_after == world_before && after@ == before@,
        }
    }

    /// Empties the coordinate and despawns the entity that sat there.
    /// Does nothing where the coordinate is empty.
    pub fn apply(self, world: &mut World, storage: &mut CellStorage<L, N>)
        requires
            valid_layer::<L, N>(),
            old(storage).wf(*old(world)),
        ensures
            self.applied(*old(world), *old(storage), *final(world), *final(storage)),
    {
        let cell_id = take_cell::<L, N>(world, storage, self.cell_c);
        if let Some(id) = cell_id {
            let ghost index = storage@;
            destroy(world, id);
            proof {
                assert forall|role: Role| (#[trigger] index.holder(role)) is Some implies exists_in(
                    *world,
                    index.holder(role).unwrap(),
                ) by {
                    assert(index.holder(role) != Some(id));
                }
            }
        }
    }
}

/// Exchanges the entities at two cell coordinates.
pub struct SwapCell<L, const N: usize> {
    pub cell_c_1: [isize; N],
    pub cell_c_2: [isize; N],
    pub label: PhantomData<L>,
}

impl<L: CellMapLabel, const N: usize> SwapCell<L, N> {
    /// What applying the command makes of a world and the index of the layer.
    pub open spec fn applied(
        self,
        world_before: World,
        before: CellStorage<L, N>,
        world_after: World,
        after: CellStorage<L, N>,
    ) -> bool {
        &&& after.wf(world_after)
        &&& keeps_undespawnable(world_before, world_after)
        &&& all_survive(world_before, world_after)
        &&& after.occupant(coord_ints(self.cell_c_1)) == before.occupant(
            coord_ints(self.cell_c_2),
        )
        &&& after.occupant(coord_ints(self.cell_c_2)) == before.occupant(
            coord_ints(self.cell_c_1),
        )
        &&& forall|cell: Seq<int>|
            cell != coord_ints(self.cell_c_1) && cell != coord_ints(self.cell_c_2)
                ==> after.occupant(cell) == before.occupant(cell)
        &&& forall|role: Role|
            !is_cell_role(role) && (#[trigger] before@.holder(role)) is Some ==> after@.holder(role)
                == before@.holder(role)
        &&& forall|role: Role|
            !is_cell_role(role) && before@.holder(role) is None && (#[trigger] after@.holder(
                role,
            )) is Some ==> !exists_in(world_before, after@.holder(role).unwrap())
        &&& coord_ints(self.cell_c_1) == coord_ints(self.cell_c_2) ==> world_after == world_before
            && after@ == before@
        &&& before.occupant(coord_ints(self.cell_c_1)) is None && before.occupant(
            coord_ints(self.cell_c_2),
        ) is None ==> world_after == world_before && after@ == before@
    }

    /// Puts what sat at the first coordinate at the second and what sat at
    /// the second at the first. An empty coordinate leaves the other one
    /// empty. No entity is despawned.
    pub fn apply(self, world: &mut World, storage: &mut CellStorage<L, N>)
        requires
            valid_layer::<L, N>(),
            old(storage).wf(*old(world)),
        ensures
            self.applied(*old(world), *old(storage), *final(world), *final(storage)),
    {
        if same_coord(&self.cell_c_1, &self.cell_c_2) {
            return ;
        }
        let ghost before = old(storage)@;
        let ghost role_1 = cell_role::<L>(coord_ints(self.cell_c_1));
        let ghost role_2 = cell_role::<L>(coord_ints(self.cell_c_2));

        let cell_id_1 = take_cell::<L, N>(world, storage, self.cell_c_1);
        let ghost first = storage@;
        let cell_id_2 = take_cell::<L, N>(world, storage, self.cell_c_2);
        let ghost second = storage@;
        let ghost world_2 = *world;
        proof {
            assert(role_1 != role_2) by {
                if role_1 == role_2 {
                    lemma_cell_role_injective::<L>(
                        coord_ints(self.cell_c_1),
                        coord_ints(self.cell_c_2),
                    );
                }
            }
            assert(before.holder(role_1) == cell_id_1);
            assert(before.holder(role_2) == cell_id_2);
            assert(first.holder(role_2) == before.holder(role_2));
        }

        if let Some(cell_id) = cell_id_1 {
            proof {
                assert forall|role: Role| second.holder(role) != Some(cell_id) by {
                    if role != role_2 {
                        assert(second.holder(role) == first.holder(role));
                    }
                }
            }
            insert_cell::<L, N>(world, storage, self.cell_c_2, cell_id);
        }
        let ghost third = storage@;
        let ghost world_3 = *world;
        proof {
            assert(third.holder(role_1) is None);
            assert(third.holder(role_2) == cell_id_1);
            assert forall|cell: Seq<int>|
                cell != coord_ints(self.cell_c_1) && cell != coord_ints(
                    self.cell_c_2,
                ) implies third.occupant(cell, L::CHUNK_SIZE as int) == before.occupant(
                cell,
                L::CHUNK_SIZE as int,
            ) by {
                assert(second.occupant(cell, L::CHUNK_SIZE as int) == first.occupant(
                    cell,
                    L::CHUNK_SIZE as int,
                ));
            }
        }

        if let Some(cell_id) = cell_id_2 {
            proof {
                assert forall|role: Role| third.holder(role) != Some(cell_id) by {
                    if role == role_2 {
                    } else if second.holder(role) is Some {
                        assert(third.holder(role) == second.holder(role));
                        assert(first.holder(role) == second.holder(role));
                        if role != role_1 {
                            assert(before.holder(role) == first.holder(role));
                        }
                    } else if third.holder(role) is Some {
                        assert(!exists_in(*old(world), third.holder(role).unwrap()));
                    }
                }
            }
            insert_cell::<L, N>(world, storage, self.cell_c_1, cell_id);
        }
    }
}

/// Moves the entity at one cell coordinate to another.
pub struct MoveCell<L, const N: usize> {
    pub old_c: [isize; N],
    pub new_c: [isize; N],
    pub label: PhantomData<L>,
}

impl<L: CellMapLabel, const N: usize> MoveCell<L, N> {
    /// The move does something: the coordinates differ and the old one is occupied.
    pub open spec fn moves(self, storage: CellStorage<L, N>) -> bool {
        coord_ints(self.old_c) != coord_ints(self.new_c) && storage.occupant(
            coord_ints(self.old_c),
        ) is Some
    }

    /// What applying the command makes of a world and the index of the layer.
    pub open spec fn applied(
        self,
        world_before: World,
        before: CellStorage<L, N>,
        world_after: World,
        after: CellStorage<L, N>,
    ) -> bool {
        &&& after.wf(world_after)
        &&& keeps_undespawnable(world_before, world_after)
        &&& !self.moves(before) ==> world_after == world_before && after@ == before@
        &&& self.moves(before) ==> {
            &&& after.occupant(coord_ints(self.old_c)) is None
            &&& after.occupant(coord_ints(self.new_c)) == before.occupant(
                coord_ints(self.old_c),
            )
            &&& forall|cell: Seq<int>|
                cell != coord_ints(self.old_c) && cell != coord_ints(self.new_c)
                    ==> after.occupant(cell) == before.occupant(cell)
            &&& forall|entity: Entity|
                exists_in(world_before, entity) && before.occupant(coord_ints(self.new_c))
                    != Some(entity) ==> #[trigger] exists_in(world_after, entity)
            &&& before.occupant(coord_ints(self.new_c)) is Some ==> gone_from(
                world_after,
                before.occupant(coord_ints(self.new_c)).unwrap(),
            )
            &&& forall|role: Role|
                (#[trigger] before@.holder(role)) is Some && role != cell_role::<L>(
                    coord_ints(self.old_c),
                ) && role != cell_role::<L>(coord_ints(self.new_c)) ==> after@.holder(
                    role,
                ) == before@.holder(role)
        }
    }

    /// Takes the entity at the old coordinate and places it at the new one,
    /// where it replaces, and so despawns, the entity that sat there. Does
    /// nothing where the two coordinates are the same or the old one is empty.
    pub fn apply(self, world: &mut World, storage: &mut CellStorage<L, N>)
        requires
            valid_layer::<L, N>(),
            old(storage).wf(*old(world)),
        ensures
            self.applied(*old(world), *old(storage), *final(world), *final(storage)),
    {
        if same_coord(&self.old_c, &self.new_c) {
            return ;
        }
        let old_cell_id = take_cell::<L, N>(world, storage, self.old_c);
        let ghost taken = storage@;

        if let Some(old_cell_id) = old_cell_id {
            insert_cell::<L, N>(world, storage, self.new_c, old_cell_id);
            proof {
                assert forall|cell: Seq<int>|
                    cell != coord_ints(self.old_c) && cell != coord_ints(
                        self.new_c,
                    ) implies storage.occupant(cell) == old(storage).occupant(cell) by {
                    assert(storage.occupant(cell) == taken.occupant(cell, L::CHUNK_SIZE as int));
                }
            }
        }
    }
}

} // verus!
