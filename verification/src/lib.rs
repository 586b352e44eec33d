//! An entity-component-system runtime: a store of game-object state organised
//! by archetype, a type-indexed singleton resource store, per-system queues of
//! deferred structural commands, and a scheduler that runs registered systems
//! once per tick and then commits the commands they buffered.
//!
//! Component values are plain data tagged with an explicit `ComponentId`;
//! entities carrying the same set of component kinds share one archetype.
//! Each system declares up front which component kinds and resources it reads
//! or writes; the declaration is validated once, at registration, and a tick
//! hands every system a context restricted to exactly what it declared.

use vstd::prelude::*;

use crate::scheduler::{tick_resource_frame, tick_storage_frame, RegisteredSystem, Scheduler};
use crate::storage::{bundle_kinds, kinds_distinct, Bundle};
use crate::systems::{decl_valid, System, SystemDecl, ValidationError};
use crate::world::{res_lookup, World};

pub mod commands;
pub mod scheduler;
pub mod storage;
pub mod systems;
pub mod world;

verus! {

/// Common identifier domain for entities, component kinds, resources and
/// systems; each usage is namespaced by its alias.
pub type Id = u64;

/// Identifies a component kind: one id per distinct component type.
pub type ComponentId = Id;

/// Identifies a live entity; unique for the lifetime of a `World`.
pub type EntityId = Id;

/// Identifies a resource type: one id per distinct singleton type.
pub type ResourceId = Id;

/// Identifies a registered system by its registration position.
pub type SystemId = Id;

/// The runtime an embedding application drives: a scheduler over registered
/// systems and the world they run against.
pub struct ECS<C, R, S> {
    pub scheduler: Scheduler<S>,
    pub world: World<C, R>,
}

impl<C, R, S> ECS<C, R, S> {
    /// The runtime's world is well formed.
    pub open spec fn wf(self) -> bool {
        self.world.wf()
    }

    /// An empty runtime: no systems, no entities, no resources.
    pub fn new() -> (e: ECS<C, R, S>)
        ensures
            e.wf(),
            e.scheduler.systems@.len() == 0,
            e.world.storage@.archetypes.len() == 0,
            e.world.storage@.next_entity == 0,
            e.world.resources@.len() == 0,
            e.world.queues@.len() == 0,
    {
        ECS { scheduler: Scheduler::new(), world: World::new() }
    }

    /// Registers a system under its declaration; an invalid declaration is
    /// rejected here, before any tick can run.
    pub fn add_system(&mut self, decl: SystemDecl, system: S) -> (r: Result<(), ValidationError>)
        ensures
            r is Ok <==> decl_valid(decl.params@),
            r is Ok ==> final(self).scheduler.systems@ == old(self).scheduler.systems@.push(
                RegisteredSystem { decl, system },
            ),
            r is Err ==> *final(self) == *old(self),
            final(self).world == old(self).world,
            (!crate::systems::accesses_compatible(
                crate::systems::component_accesses(decl.params@),
            )) <==> (exists|k: ComponentId|
                r == Err::<(), ValidationError>(ValidationError::ComponentConflict { kind: k })),
            (crate::systems::accesses_compatible(
                crate::systems::component_accesses(decl.params@),
            ) && !crate::systems::accesses_compatible(
                crate::systems::resource_accesses(decl.params@),
            )) <==> (exists|id: ResourceId|
                r == Err::<(), ValidationError>(ValidationError::ResourceConflict {
                    resource: id,
                })),
            (crate::systems::accesses_compatible(
                crate::systems::component_accesses(decl.params@),
            ) && crate::systems::accesses_compatible(
                crate::systems::resource_accesses(decl.params@),
            ) && crate::systems::commands_count(decl.params@) >= 2) <==> r == Err::<
                (),
                ValidationError,
            >(ValidationError::DuplicateCommands),
    {
        self.scheduler.add_system(decl, system)
    }

    /// Creates an entity from a bundle holding at most one value per kind and
    /// returns its fresh id.
    pub fn create_entity(&mut self, bundle: Bundle<C>) -> (e: EntityId) where C: Copy
        requires
            old(self).wf(),
            kinds_distinct(bundle_kinds(bundle@)),
            old(self).world.storage.next_entity < u64::MAX,
        ensures
            final(self).wf(),
            final(self).world.storage@ == old(self).world.storage@.create(bundle@),
            final(self).world.resources == old(self).world.resources,
            final(self).world.queues == old(self).world.queues,
            final(self).scheduler == old(self).scheduler,
            e == old(self).world.storage.next_entity,
    {
        self.world.create_entity(bundle)
    }

    /// Registers the resource under `id`; the first registration of an id
    /// wins and later ones are no-ops.
    pub fn add_resource(&mut self, id: ResourceId, value: R)
        requires
            old(self).wf(),
        ensures
            final(self).wf(),
            final(self).world.resources@ == crate::world::res_add(
                old(self).world.resources@,
                id,
                value,
            ),
            res_lookup(final(self).world.resources@, id) == match res_lookup(
                old(self).world.resources@,
                id,
            ) {
                Some(v) => Some(v),
                None => Some(value),
            },
            res_lookup(old(self).world.resources@, id) is Some ==> final(self).world.resources
                == old(self).world.resources,
            final(self).world.storage == old(self).world.storage,
            final(self).world.queues == old(self).world.queues,
            final(self).scheduler == old(self).scheduler,
    {
        self.world.add_resource(id, value)
    }

    /// Advances one tick: runs every system in registration order, then
    /// applies all buffered commands.  The tick's writes stay inside what the
    /// systems declared at registration.
    pub fn run(&mut self) where C: Copy, R: Copy, S: System<C, R>
        requires
            old(self).wf(),
        ensures
            final(self).wf(),
            forall|x: int|
                0 <= x < final(self).world.queues@.len() ==> (
                #[trigger] final(self).world.queues@[x]).pending@.len() == 0,
            tick_storage_frame(
                old(self).world.storage@,
                final(self).world.storage@,
                old(self).scheduler.systems@,
            ),
            tick_resource_frame(
                old(self).world.resources@,
                final(self).world.resources@,
                old(self).scheduler.systems@,
            ),
            final(self).scheduler.systems@.len() == old(self).scheduler.systems@.len(),
            forall|i: int|
                0 <= i < old(self).scheduler.systems@.len() ==> (#[trigger] final(self).scheduler.systems@[i]).decl
                    == old(self).scheduler.systems@[i].decl,
    {
        self.scheduler.run(&mut self.world)
    }
}

} // verus!
