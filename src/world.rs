use vstd::prelude::*;

use crate::descriptor::ObserverDescriptor;
use crate::entity::{ComponentId, Components, Entity, PLACEHOLDER_INDEX};

verus! {

/// A typed callback in data form: the component kinds its input bundle names,
/// whether it demands unshared access to the whole store, and whether it
/// queues the despawn of its own host entity when it runs.
#[derive(Debug)]
pub struct ObserverSystem {
    pub bundle: Vec<u64>,
    pub exclusive: bool,
    pub despawn_self: bool,
}

/// How an observer record reacts to a trigger.
#[derive(Debug, Clone, Copy, PartialEq, Eq, Structural)]
pub enum ObserverRunner {
    /// Bridges to the record's boxed callback, at most once per emission.
    System,
    /// Records every matching trigger, with no deduplication.
    Raw,
}

/// The record attached to an observer's host entity.
#[derive(Debug)]
pub struct ObserverComponent {
    pub descriptor: ObserverDescriptor,
    pub runner: ObserverRunner,
    pub system: Option<ObserverSystem>,
    pub last_event_id: u64,
}

impl ObserverComponent {
    /// A record that bridges to `system`; exclusive callbacks are refused.
    pub fn from(descriptor: ObserverDescriptor, system: ObserverSystem) -> (r: ObserverComponent)
        requires
            !system.exclusive,
        ensures
            r.descriptor == descriptor,
            r.runner == ObserverRunner::System,
            r.system == Some(system),
            r.last_event_id == 0,
    {
        ObserverComponent {
            descriptor,
            runner: ObserverRunner::System,
            system: Some(system),
            last_event_id: 0,
        }
    }

    /// A record driven by `runner` alone, with no callback.
    pub fn from_runner(descriptor: ObserverDescriptor, runner: ObserverRunner) -> (r:
        ObserverComponent)
        ensures
            r.descriptor == descriptor,
            r.runner == runner,
            r.system is None,
            r.last_event_id == 0,
    {
        ObserverComponent { descriptor, runner, system: None, last_event_id: 0 }
    }
}

/// One run of an observer: which observer, for which event kind and source
/// entity, with which payload.
#[derive(Debug, Clone, Copy, PartialEq, Eq, Structural)]
pub struct Invocation {
    pub observer: Entity,
    pub event: ComponentId,
    pub source: Entity,
    pub payload: u64,
}

/// An event on its way to dispatch.
#[derive(Debug)]
pub struct EmitEcsEvent {
    pub event: ComponentId,
    pub data: u64,
    pub entities: Vec<Entity>,
    pub components: Vec<ComponentId>,
}

/// A deferred mutation of the world.
#[derive(Debug)]
pub enum Command {
    Spawn(Entity),
    Despawn(Entity),
    InsertObserver(Entity, ObserverComponent),
    BuildObserver(Entity, ObserverDescriptor, ObserverSystem),
    RemoveObserver(Entity),
    RegisterObserver(Entity),
    UnregisterObserver(Entity),
    Emit(EmitEcsEvent),
}

/// Whether `c` is one of the lifecycle notifications, which queue nothing.
pub open spec fn is_hook(c: Command) -> bool {
    c is RegisterObserver || c is UnregisterObserver
}

/// The deferred command queue, with the type registry and entity allocator.
#[derive(Debug)]
pub struct Commands {
    pub queue: Vec<Command>,
    pub components: Components,
    pub next_entity: u32,
}

impl Commands {
    pub open spec fn queued(&self) -> Seq<Command> {
        self.queue@
    }

    pub open spec fn next_index(&self) -> u32 {
        self.next_entity
    }

    pub open spec fn wf(&self) -> bool {
        self.components.wf() && self.next_index() <= PLACEHOLDER_INDEX
    }

    /// Whether another entity can be allocated.
    pub open spec fn can_spawn(&self) -> bool {
        self.next_index() < PLACEHOLDER_INDEX
    }

    pub fn new() -> (r: Commands)
        ensures
            r.wf(),
            r.queued().len() == 0,
            r.next_index() == 0,
            r.components.keys() == seq![crate::entity::NO_EVENT_TYPE],
    {
        Commands { queue: Vec::new(), components: Components::new(), next_entity: 0 }
    }

    /// Appends `c` to the queue.
    pub fn add(&mut self, c: Command)
        ensures
            final(self).queued() == old(self).queued().push(c),
            final(self).components == old(self).components,
            final(self).next_index() == old(self).next_index(),
    {
        self.queue.push(c);
    }

    /// Reserves a fresh entity and queues its spawn.
    pub fn spawn_empty(&mut self) -> (r: Entity)
        requires
            old(self).wf(),
            old(self).can_spawn(),
        ensures
            final(self).wf(),
            r.index == old(self).next_index(),
            final(self).next_index() == old(self).next_index() + 1,
            final(self).queued() == old(self).queued().push(Command::Spawn(r)),
            final(self).components == old(self).components,
    {
        let e = Entity::from_index(self.next_entity);
        self.next_entity = self.next_entity + 1;
        self.queue.push(Command::Spawn(e));
        e
    }

    /// Takes every queued command out, leaving the queue empty.
    pub fn take_queue(&mut self) -> (r: Vec<Command>)
        ensures
            r@ == old(self).queued(),
            final(self).queued().len() == 0,
            final(self).components == old(self).components,
            final(self).next_index() == old(self).next_index(),
    {
        let mut q: Vec<Command> = Vec::new();
        std::mem::swap(&mut q, &mut self.queue);
        q
    }
}

/// The store: entities, observer records, the observer index and the
/// per-emission counter, with the log of observer runs.
#[derive(Debug)]
pub struct World {
    pub commands: Commands,
    pub alive: Vec<bool>,
    pub records: Vec<Option<ObserverComponent>>,
    pub registered: Vec<Entity>,
    pub last_event_id: u64,
    pub log: Vec<Invocation>,
}

/// The record held at `e`, if any.
pub open spec fn record_in(records: Seq<Option<ObserverComponent>>, e: Entity) -> Option<
    ObserverComponent,
> {
    if e.index < records.len() {
        records[e.index as int]
    } else {
        None
    }
}

impl World {
    pub open spec fn records_view(&self) -> Seq<Option<ObserverComponent>> {
        self.records@
    }

    pub open spec fn alive_view(&self) -> Seq<bool> {
        self.alive@
    }

    /// The observer index: hosts whose records future emissions consult.
    pub open spec fn registered_view(&self) -> Seq<Entity> {
        self.registered@
    }

    pub open spec fn counter(&self) -> u64 {
        self.last_event_id
    }

    /// Every observer run so far, in order.
    pub open spec fn log_view(&self) -> Seq<Invocation> {
        self.log@
    }

    pub open spec fn record(&self, e: Entity) -> Option<ObserverComponent> {
        record_in(self.records_view(), e)
    }

    pub open spec fn is_alive(&self, e: Entity) -> bool {
        e.index < self.alive_view().len() && self.alive_view()[e.index as int]
    }

    pub open spec fn wf(&self) -> bool {
        &&& self.commands.wf()
        &&& self.alive_view().len() == self.records_view().len()
        &&& self.records_view().len() <= self.commands.next_index()
        &&& self.registered_view().no_duplicates()
        &&& forall|i: int|
            0 <= i < self.records_view().len() && (#[trigger] self.records_view()[i]) is Some
                ==> self.records_view()[i].unwrap().last_event_id <= self.counter()
                && self.alive_view()[i]
    }

    pub fn new() -> (r: World)
        ensures
            r.wf(),
            r.commands.queued().len() == 0,
            r.commands.components.keys() == seq![crate::entity::NO_EVENT_TYPE],
            r.registered_view().len() == 0,
            r.log_view().len() == 0,
            r.counter() == 0,
    {
        World {
            commands: Commands::new(),
            alive: Vec::new(),
            records: Vec::new(),
            registered: Vec::new(),
            last_event_id: 0,
            log: Vec::new(),
        }
    }

    /// Registers the type with `key` and returns its identifier.
    pub fn register_type(&mut self, key: u64) -> (r: ComponentId)
        requires
            old(self).wf(),
            old(self).commands.components.keys().len() < usize::MAX - 1,
            old(self).commands.components.keys().len() < u64::MAX - 1,
        ensures
            final(self).wf(),
            final(self).commands.components.is_registered(key),
            r == final(self).commands.components.id_of(key),
            old(self).commands.components.is_registered(key) ==> final(self).commands.components.keys() == old(self).commands.components.keys(),
            !old(self).commands.components.is_registered(key) ==> final(self).commands.components.keys() == old(self).commands.components.keys().push(key),
            forall|k: u64| old(self).commands.components.is_registered(k)
                ==> final(self).commands.components.is_registered(k)
                && final(self).commands.components.id_of(k)
                == old(self).commands.components.id_of(k),
            final(self).commands.queued() == old(self).commands.queued(),
            final(self).records_view() == old(self).records_view(),
            final(self).registered_view() == old(self).registered_view(),
            final(self).log_view() == old(self).log_view(),
            final(self).counter() == old(self).counter(),
    {
        self.commands.components.register(key)
    }

    /// The observer runs recorded so far.
    pub fn invocations(&self) -> (r: &Vec<Invocation>)
        ensures
            r@ == self.log_view(),
    {
        &self.log
    }

    /// The current emission counter.
    pub fn last_event_id(&self) -> (r: u64)
        ensures
            r == self.counter(),
    {
        self.last_event_id
    }

    /// Whether `e` is in the observer index.
    pub fn is_registered_observer(&self, e: Entity) -> (r: bool)
        ensures
            r == self.registered_view().contains(e),
    {
        let mut i: usize = 0;
        while i < self.registered.len()
            invariant
                0 <= i <= self.registered@.len(),
                forall|j: int| 0 <= j < i ==> self.registered@[j] != e,
            decreases self.registered@.len() - i,
        {
            if self.registered[i] == e {
                assert(self.registered@[i as int] == e);
                return true;
            }
            i = i + 1;
        }
        false
    }

    /// Whether `e` was spawned and not despawned since.
    pub fn contains_entity(&self, e: Entity) -> (r: bool)
        ensures
            r == self.is_alive(e),
    {
        let i = e.index as usize;
        i < self.alive.len() && self.alive[i]
    }

    /// Whether `e` holds an observer record.
    pub fn has_observer(&self, e: Entity) -> (r: bool)
        ensures
            r == (self.record(e) is Some),
    {
        let i = e.index as usize;
        i < self.records.len() && self.records[i].is_some()
    }
}

} // verus!
