//! Entity handles and the entity store that hands them out.
//!
//! The entities themselves live in a `bevy` world. This module names the
//! set of entities that exist in such a world and states, without proof,
//! what spawning and despawning do to that set.
use bevy::ecs::world::World;
use vstd::prelude::*;

verus! {

/// The world type of `bevy`, opaque to the verifier.
#[verifier::external_type_specification]
#[verifier::external_body]
pub struct ExWorld(World);

/// A handle to an entity: the bits of its identifier in the world.
#[derive(Clone, Copy, Debug, PartialEq, Eq, Hash, Structural)]
pub struct Entity {
    pub bits: u64,
}

impl Entity {
    /// The handle with the given bits.
    pub fn from_bits(bits: u64) -> (entity: Entity)
        ensures
            entity.bits == bits,
    {
        Entity { bits }
    }

    /// The bits of the handle.
    pub fn to_bits(self) -> (bits: u64)
        ensures
            bits == self.bits,
    {
        self.bits
    }
}

/// The entities that exist in `world`, each given by the bits of its identifier.
pub uninterp spec fn world_entities(world: World) -> Set<u64>;

/// The identifiers that were reserved in `world` for entities that are not
/// spawned yet. The world spawns them all the next time it spawns or
/// despawns an entity.
pub uninterp spec fn world_reserved(world: World) -> Set<u64>;

/// `entity` exists in `world`.
pub open spec fn exists_in(world: World, entity: Entity) -> bool {
    world_entities(world).contains(entity.bits)
}

/// The identifier of `entity` is reserved in `world`, but the entity is not spawned yet.
pub open spec fn reserved_in(world: World, entity: Entity) -> bool {
    world_reserved(world).contains(entity.bits)
}

/// The generation of `entity`, the upper half of its bits, can still be
/// counted up, as a world does when it despawns the entity.
pub open spec fn can_despawn(entity: Entity) -> bool {
    entity.bits < 0xFFFF_FFFF_0000_0000
}

/// `entity` does not exist in `world`, as far as a world can despawn it.
pub open spec fn gone_from(world: World, entity: Entity) -> bool {
    can_despawn(entity) ==> !exists_in(world, entity)
}

/// `entity` was not despawned although a command asked for it: a world
/// cannot despawn it, so it exists in `after` as it did in `before`.
pub open spec fn left_alive(before: World, after: World, entity: Entity) -> bool {
    !can_despawn(entity) && exists_in(before, entity) ==> exists_in(after, entity)
}

/// Calls `World::spawn_empty` and returns the identifier of the new entity.
///
/// Claims that the new entity neither existed nor was reserved before the
/// call, and that after the call exactly it, the entities that existed before
/// and the entities that were reserved before exist, with nothing reserved.
/// A world that has no identifier left to give, after four thousand million
/// of them, panics instead; no contract here can say when.
#[verifier::external_body]
pub(crate) fn spawn_empty(world: &mut World) -> (entity: Entity)
    ensures
        !exists_in(*old(world), entity),
        !reserved_in(*old(world), entity),
        world_entities(*final(world)) == world_entities(*old(world)).union(
            world_reserved(*old(world)),
        ).insert(entity.bits),
        world_reserved(*final(world)) == Set::<u64>::empty(),
{
    Entity { bits: world.spawn_empty().id().to_bits() }
}

/// Calls `World::despawn` on the entity with the given handle.
///
/// Claims that the result tells whether the entity existed; that a call for
/// an entity that did not exist leaves the world as it was; and that after a
/// call for one that existed exactly the other entities that existed before
/// and the entities that were reserved before exist, with nothing reserved.
/// The world counts the generation of the entity up by one, which the
/// largest generation does not allow: such an entity is left out.
#[verifier::external_body]
pub(crate) fn despawn(world: &mut World, entity: Entity) -> (existed: bool)
    requires
        can_despawn(entity),
    ensures
        existed == exists_in(*old(world), entity),
        !existed ==> *final(world) == *old(world),
        existed ==> world_entities(*final(world)) == world_entities(*old(world)).union(
            world_reserved(*old(world)),
        ).remove(entity.bits),
        existed ==> world_reserved(*final(world)) == Set::<u64>::empty(),
{
    world.despawn(bevy::ecs::entity::Entity::from_bits(entity.bits))
}

/// Calls `World::get_entity` and tells whether it found the entity.
#[verifier::external_body]
pub(crate) fn contains(world: &World, entity: Entity) -> (exists: bool)
    ensures
        exists == exists_in(*world, entity),
{
    world.get_entity(bevy::ecs::entity::Entity::from_bits(entity.bits)).is_some()
}

/// No entity that a world cannot despawn was despawned between `before`
/// and `after`: each of them that existed still exists.
pub open spec fn keeps_undespawnable(before: World, after: World) -> bool {
    forall|entity: Entity|
        exists_in(before, entity) && !can_despawn(entity) ==> #[trigger] exists_in(after, entity)
}

/// How a world changes while entities are despawned from it and none is
/// spawned: every entity that is not in `destroyed`, and every one that a
/// world cannot despawn, is still there, and whatever is there existed
/// before or was reserved before.
pub open spec fn only_despawned(before: World, after: World, destroyed: Set<Entity>) -> bool {
    &&& forall|entity: Entity|
        exists_in(before, entity) && !(destroyed.contains(entity) && can_despawn(entity))
            ==> #[trigger] exists_in(after, entity)
    &&& forall|entity: Entity| #[trigger]
        exists_in(after, entity) ==> exists_in(before, entity) || reserved_in(before, entity)
    &&& forall|entity: Entity| #[trigger]
        reserved_in(after, entity) ==> reserved_in(before, entity)
}

/// Despawns `entity`, unless its generation cannot be counted up any more.
pub(crate) fn destroy(world: &mut World, entity: Entity)
    ensures
        gone_from(*final(world), entity),
        only_despawned(*old(world), *final(world), set![entity]),
        exists_in(*old(world), entity) && can_despawn(entity) ==> world_reserved(*final(world))
            == Set::<u64>::empty(),
        !(exists_in(*old(world), entity) && can_despawn(entity)) ==> *final(world) == *old(world),
{
    if entity.bits < 0xFFFF_FFFF_0000_0000 {
        despawn(world, entity);
    }
}

/// Despawns the entities of `doomed`, in order, as far as a world can despawn them.
pub(crate) fn destroy_all(world: &mut World, doomed: &Vec<Entity>)
    requires
        forall|i: int| 0 <= i < doomed@.len() ==> exists_in(*old(world), #[trigger] doomed@[i]),
    ensures
        only_despawned(*old(world), *final(world), doomed@.to_set()),
        forall|i: int| 0 <= i < doomed@.len() ==> gone_from(*final(world), #[trigger] doomed@[i]),
        doomed@.len() == 0 ==> *final(world) == *old(world),
{
    let ghost mut flushed = false;
    let mut k: usize = 0;
    while k < doomed.len()
        invariant
            k <= doomed.len(),
            only_despawned(*old(world), *world, doomed@.take(k as int).to_set()),
            forall|i: int| 0 <= i < k ==> gone_from(*world, #[trigger] doomed@[i]),
            forall|i: int|
                0 <= i < doomed@.len() ==> exists_in(*world, #[trigger] doomed@[i]) || doomed@.take(
                    k as int,
                ).contains(doomed@[i]),
            flushed ==> world_reserved(*world) == Set::<u64>::empty(),
            !flushed ==> *world == *old(world),
            flushed ==> k > 0,
            !flushed ==> forall|i: int| 0 <= i < k ==> !can_despawn(#[trigger] doomed@[i]),
        decreases doomed.len() - k,
    {
        let ghost before = *world;
        let ghost done = doomed@.take(k as int);
        let entity = doomed[k];
        destroy(world, entity);
        proof {
            let next = doomed@.take(k + 1);
            assert(next =~= done.push(entity));
            assert forall|other: Entity| next.to_set().contains(other) <==> done.to_set().contains(
                other,
            ) || other == entity by {
                if done.contains(other) {
                    let j = choose|j: int| 0 <= j < done.len() && done[j] == other;
                    assert(next[j] == other);
                }
                if other == entity {
                    assert(next[k as int] == other);
                }
            }
            if exists_in(before, entity) && can_despawn(entity) {
                flushed = true;
            }
            assert forall|i: int| 0 <= i < k + 1
                implies gone_from(*world, #[trigger] doomed@[i]) by {
                if i < k && can_despawn(doomed@[i]) {
                    assert(!exists_in(before, doomed@[i]));
                    assert(!reserved_in(before, doomed@[i]));
                }
            }
            assert forall|i: int| 0 <= i < doomed@.len() implies exists_in(
                *world,
                #[trigger] doomed@[i],
            ) || next.contains(doomed@[i]) by {
                if doomed@[i] == entity {
                    assert(next[k as int] == entity);
                } else if done.contains(doomed@[i]) {
                    let j = choose|j: int| 0 <= j < done.len() && done[j] == doomed@[i];
                    assert(next[j] == doomed@[i]);
                }
            }
        }
        k += 1;
    }
    assert(doomed@.take(k as int) =~= doomed@);
}

} // verus!
