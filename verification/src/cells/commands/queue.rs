//! Commands on a cell map that are queued first and applied later, in the
//! order in which they were queued.
use crate::cells::commands::cell_batch::{
    DespawnCellBatch, MoveCellBatch, SpawnCellBatch, SwapCellBatch,
};
use crate::cells::commands::cell_single::{DespawnCell, MoveCell, SpawnCell, SwapCell};
use crate::cells::commands::chunk_single::{DespawnChunk, SpawnChunk};
use crate::cells::commands::map::DespawnMap;
use crate::cells::world::Entity;
use crate::cells::{valid_layer, CellMapLabel, CellStorage};
use bevy::ecs::world::World;
use std::marker::PhantomData;
use vstd::prelude::*;

verus! {

/// A command on the cell map of layer `L`.
pub enum CellCommand<L, const N: usize> {
    SpawnCell(SpawnCell<L, N>),
    SpawnCellBatch(SpawnCellBatch<L, N>),
    DespawnCell(DespawnCell<L, N>),
    DespawnCellBatch(DespawnCellBatch<L, N>),
    MoveCell(MoveCell<L, N>),
    MoveCellBatch(MoveCellBatch<L, N>),
    SwapCell(SwapCell<L, N>),
    SwapCellBatch(SwapCellBatch<L, N>),
    SpawnChunk(SpawnChunk<L, N>),
    DespawnChunk(DespawnChunk<L, N>),
    DespawnMap(DespawnMap<L, N>),
}

impl<L: CellMapLabel, const N: usize> CellCommand<L, N> {
    /// What applying the command makes of a world and the index of the layer.
    pub open spec fn applied(
        self,
        world_before: World,
        before: CellStorage<L, N>,
        world_after: World,
        after: CellStorage<L, N>,
    ) -> bool {
        match self {
            CellCommand::SpawnCell(command) => command.applied(
                world_before,
                before,
                world_after,
                after,
            ),
            CellCommand::SpawnCellBatch(command) => exists|spawned: Seq<Entity>| #[trigger]
                command.applied(world_before, before, world_after, after, spawned),
            CellCommand::DespawnCell(command) => command.applied(
                world_before,
                before,
                world_after,
                after,
            ),
            CellCommand::DespawnCellBatch(command) => command.applied(
                world_before,
                before,
                world_after,
                after,
            ),
            CellCommand::MoveCell(command) => command.applied(
                world_before,
                before,
                world_after,
                after,
            ),
            CellCommand::MoveCellBatch(command) => command.applied(
                world_before,
                before,
                world_after,
                after,
            ),
            CellCommand::SwapCell(command) => command.applied(
                world_before,
                before,
                world_after,
                after,
            ),
            CellCommand::SwapCellBatch(command) => command.applied(
                world_before,
                before,
                world_after,
                after,
            ),
            CellCommand::SpawnChunk(command) => command.applied(
                world_before,
                before,
                world_after,
                after,
            ),
            CellCommand::DespawnChunk(command) => command.applied(
                world_before,
                before,
                world_after,
                after,
            ),
            CellCommand::DespawnMap(command) => command.applied(
                world_before,
                before,
                world_after,
                after,
            ),
        }
    }

    /// Applies the command.
    pub fn apply(self, world: &mut World, storage: &mut CellStorage<L, N>)
        requires
            valid_layer::<L, N>(),
            old(storage).wf(*old(world)),
        ensures
            final(storage).wf(*final(world)),
            self.applied(*old(world), *old(storage), *final(world), *final(storage)),
    {
        match self {
            CellCommand::SpawnCell(command) => command.apply(world, storage),
            CellCommand::SpawnCellBatch(command) => {
                let spawned = command.apply(world, storage);
                assert(command.applied(*old(world), *old(storage), *world, *storage, spawned@));
            },
            CellCommand::DespawnCell(command) => command.apply(world, storage),
            CellCommand::DespawnCellBatch(command) => command.apply(world, storage),
            CellCommand::MoveCell(command) => command.apply(world, storage),
            CellCommand::MoveCellBatch(command) => command.apply(world, storage),
            CellCommand::SwapCell(command) => command.apply(world, storage),
            CellCommand::SwapCellBatch(command) => command.apply(world, storage),
            CellCommand::SpawnChunk(command) => command.apply(world, storage),
            CellCommand::DespawnChunk(command) => command.apply(world, storage),
            CellCommand::DespawnMap(command) => command.apply(world, storage),
        }
    }
}

/// The steps of applying the commands of `commands` one after the other:
/// every command starts where the one before it ended.
pub open spec fn steps<L: CellMapLabel, const N: usize>(
    commands: Seq<CellCommand<L, N>>,
    worlds: Seq<World>,
    stores: Seq<CellStorage<L, N>>,
) -> bool {
    &&& worlds.len() == commands.len() + 1
    &&& stores.len() == commands.len() + 1
    &&& forall|i: int|
        0 <= i < commands.len() ==> (#[trigger] commands[i]).applied(
            worlds[i],
            stores[i],
            worlds[i + 1],
            stores[i + 1],
        )
}

/// What applying the commands of `commands` one after the other makes of a
/// world and the index of the layer.
pub open spec fn applied_in_turn<L: CellMapLabel, const N: usize>(
    commands: Seq<CellCommand<L, N>>,
    world_before: World,
    before: CellStorage<L, N>,
    world_after: World,
    after: CellStorage<L, N>,
) -> bool {
    exists|worlds: Seq<World>, stores: Seq<CellStorage<L, N>>|
        {
            &&& #[trigger] steps(commands, worlds, stores)
            &&& worlds[0] == world_before
            &&& stores[0] == before
            &&& worlds.last() == world_after
            &&& stores.last() == after
        }
}

/// Applies commands to a specific cell map: holds them in the order in
/// which they were given until they are applied.
pub struct CellCommands<L, const N: usize> {
    queue: Vec<CellCommand<L, N>>,
}

impl<L: CellMapLabel, const N: usize> View for CellCommands<L, N> {
    type V = Seq<CellCommand<L, N>>;

    closed spec fn view(&self) -> Seq<CellCommand<L, N>> {
        self.queue@
    }
}

impl<L: CellMapLabel, const N: usize> CellCommands<L, N> {
    /// A queue without commands.
    pub fn new() -> (commands: Self)
        ensures
            commands@ == Seq::<CellCommand<L, N>>::empty(),
    {
        CellCommands { queue: Vec::new() }
    }

    /// Queues the placing of `cell_id` at `cell_c`.
    /// This will despawn any cell that already exists in this coordinate
    pub fn spawn_cell(&mut self, cell_c: [isize; N], cell_id: Entity)
        ensures
            final(self)@ == old(self)@.push(
                CellCommand::SpawnCell(SpawnCell { cell_c, cell_id, label: PhantomData }),
            ),
    {
        self.queue.push(CellCommand::SpawnCell(SpawnCell { cell_c, cell_id, label: PhantomData }));
    }

    /// Queues the spawning of a cell at each of the given coordinates.
    /// This will despawn any cell that already exists in these coordinates
    pub fn spawn_cell_batch(&mut self, cell_cs: Vec<[isize; N]>)
        ensures
            final(self)@ == old(self)@.push(
                CellCommand::SpawnCellBatch(SpawnCellBatch { cell_cs, label: PhantomData }),
            ),
    {
        self.queue.push(
            CellCommand::SpawnCellBatch(SpawnCellBatch { cell_cs, label: PhantomData }),
        );
    }

    /// Despawns a cell.
    pub fn despawn_cell(&mut self, cell_c: [isize; N])
        ensures
            final(self)@ == old(self)@.push(
                CellCommand::DespawnCell(DespawnCell { cell_c, label: PhantomData }),
            ),
    {
        self.queue.push(CellCommand::DespawnCell(DespawnCell { cell_c, label: PhantomData }));
    }

    /// Despawns cells at the given coordinates.
    pub fn despawn_cell_batch(&mut self, cell_cs: Vec<[isize; N]>)
        ensures
            final(self)@ == old(self)@.push(
                CellCommand::DespawnCellBatch(DespawnCellBatch { cell_cs, label: PhantomData }),
            ),
    {
        self.queue.push(
            CellCommand::DespawnCellBatch(DespawnCellBatch { cell_cs, label: PhantomData }),
        );
    }

    /// Moves a cell from one coordinate to another, overwriting and despawning any cell in the new
    /// coordinate.
    pub fn move_cell(&mut self, old_c: [isize; N], new_c: [isize; N])
        ensures
            final(self)@ == old(self)@.push(
                CellCommand::MoveCell(MoveCell { old_c, new_c, label: PhantomData }),
            ),
    {
        self.queue.push(CellCommand::MoveCell(MoveCell { old_c, new_c, label: PhantomData }));
    }

    /// Move cells from the first coordinate to the second coordinate, despawning
    /// any cell found in the second coordinate.
    pub fn move_cell_batch(&mut self, cell_cs: Vec<([isize; N], [isize; N])>)
        ensures
            final(self)@ == old(self)@.push(
                CellCommand::MoveCellBatch(MoveCellBatch { cell_cs, label: PhantomData }),
            ),
    {
        self.queue.push(CellCommand::MoveCellBatch(MoveCellBatch { cell_cs, label: PhantomData }));
    }

    /// Swaps two cells if both exist, or just moves one cell if the other doesn't exist.
    pub fn swap_cells(&mut self, cell_c_1: [isize; N], cell_c_2: [isize; N])
        ensures
            final(self)@ == old(self)@.push(
                CellCommand::SwapCell(SwapCell { cell_c_1, cell_c_2, label: PhantomData }),
            ),
    {
        self.queue.push(
            CellCommand::SwapCell(SwapCell { cell_c_1, cell_c_2, label: PhantomData }),
        );
    }

    /// Swap cells from the first coordinate and the second coordinate
    pub fn swap_cell_batch(&mut self, cell_cs: Vec<([isize; N], [isize; N])>)
        ensures
            final(self)@ == old(self)@.push(
                CellCommand::SwapCellBatch(SwapCellBatch { cell_cs, label: PhantomData }),
            ),
    {
        self.queue.push(CellCommand::SwapCellBatch(SwapCellBatch { cell_cs, label: PhantomData }));
    }

    /// Manually spawn a chunk entity, note that this will overwrite and despawn existing chunks at
    /// this location.
    pub fn spawn_chunk(&mut self, chunk_c: [isize; N], chunk_id: Entity)
        ensures
            final(self)@ == old(self)@.push(
                CellCommand::SpawnChunk(SpawnChunk { chunk_c, chunk_id, label: PhantomData }),
            ),
    {
        self.queue.push(
            CellCommand::SpawnChunk(SpawnChunk { chunk_c, chunk_id, label: PhantomData }),
        );
    }

    /// Recursively despawn a chunk and all it's cells.
    pub fn despawn_chunk(&mut self, chunk_c: [isize; N])
        ensures
            final(self)@ == old(self)@.push(
                CellCommand::DespawnChunk(DespawnChunk { chunk_c, label: PhantomData }),
            ),
    {
        self.queue.push(CellCommand::DespawnChunk(DespawnChunk { chunk_c, label: PhantomData }));
    }

    /// Recursively despawns a map and all it's chunks and cells.
    pub fn despawn_map(&mut self)
        ensures
            final(self)@ == old(self)@.push(
                CellCommand::DespawnMap(DespawnMap { label: PhantomData }),
            ),
    {
        self.queue.push(CellCommand::DespawnMap(DespawnMap { label: PhantomData }));
    }

    /// Applies the queued commands in the order in which they were queued,
    /// to the index as `prune` leaves it: handles of entities that were
    /// despawned behind the back of the index are dropped first.
    pub fn apply(self, world: &mut World, storage: &mut CellStorage<L, N>)
        requires
            valid_layer::<L, N>(),
            old(storage).sound(),
        ensures
            final(storage).wf(*final(world)),
            exists|pruned: CellStorage<L, N>|
                {
                    &&& #[trigger] pruned.wf(*old(world))
                    &&& pruned@ == old(storage)@.pruned(*old(world))
                    &&& applied_in_turn(self@, *old(world), pruned, *final(world), *final(storage))
                },
    {
        storage.prune(world);
        let ghost pruned = *storage;
        let ghost all = self.queue@;
        let mut queue = self.queue;
        let mut waiting: Vec<CellCommand<L, N>> = Vec::new();
        // turn the queue around, so that the first command can be popped first
        while queue.len() > 0
            invariant
                queue@.len() + waiting@.len() == all.len(),
                forall|i: int| 0 <= i < queue@.len() ==> queue@[i] == all[i],
                forall|i: int|
                    0 <= i < waiting@.len() ==> waiting@[i] == all[all.len() - 1 - i],
            decreases queue@.len(),
        {
            let command = queue.pop().unwrap();
            waiting.push(command);
        }
        let ghost mut done: int = 0;
        let ghost mut worlds: Seq<World> = seq![*world];
        let ghost mut stores: Seq<CellStorage<L, N>> = seq![*storage];
        while waiting.len() > 0
            invariant
                valid_layer::<L, N>(),
                0 <= done <= all.len(),
                waiting@.len() == all.len() - done,
                forall|i: int|
                    0 <= i < waiting@.len() ==> waiting@[i] == all[all.len() - 1 - i],
                storage.wf(*world),
                steps(all.take(done), worlds, stores),
                worlds[0] == *old(world),
                stores[0] == pruned,
                worlds.last() == *world,
                stores.last() == *storage,
            decreases waiting@.len(),
        {
            let command = waiting.pop().unwrap();
            assert(command == all[done]);
            command.apply(world, storage);
            proof {
                let next = all.take(done + 1);
                let longer = worlds.push(*world);
                let more = stores.push(*storage);
                assert forall|i: int| 0 <= i < next.len() implies (#[trigger] next[i]).applied(
                    longer[i],
                    more[i],
                    longer[i + 1],
                    more[i + 1],
                ) by {
                    if i < done {
                        assert(all.take(done)[i] == next[i]);
                    }
                }
                worlds = longer;
                stores = more;
                done = done + 1;
            }
        }
        assert(all.take(done) =~= all);
        assert(applied_in_turn(self@, *old(world), pruned, *world, *storage));
    }
}

} // verus!
