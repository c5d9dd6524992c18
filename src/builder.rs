use vstd::prelude::*;

use crate::descriptor::ObserverDescriptor;
use crate::entity::{ComponentId, Entity, NO_EVENT, NO_EVENT_TYPE};
use crate::world::{Command, Commands, EmitEcsEvent, ObserverComponent, ObserverRunner, ObserverSystem};

verus! {

/// Accumulates an observer's criteria for its host entity.
#[derive(Debug)]
pub struct ObserverBuilder {
    pub entity: Entity,
    pub descriptor: ObserverDescriptor,
    /// Type key of the single event kind whose payload the callback may read;
    /// the "no event" key once the observer listens to several kinds.
    pub event_type: u64,
}

/// The identifiers registered for all of `keys`, in order.
pub open spec fn ids_of(commands: Commands, keys: Seq<u64>) -> Seq<ComponentId> {
    keys.map_values(|k: u64| commands.components.id_of(k))
}

/// Whether every key of `keys` has an entry in the registry.
pub open spec fn all_registered(commands: Commands, keys: Seq<u64>) -> bool {
    forall|i: int| 0 <= i < keys.len() ==> commands.components.is_registered(keys[i])
}

/// The event set a builder for `event_type` starts with.
pub open spec fn initial_events(commands: Commands, event_type: u64) -> Seq<ComponentId> {
    if commands.components.id_of(event_type) == NO_EVENT {
        seq![]
    } else {
        seq![commands.components.id_of(event_type)]
    }
}

fn append_ids(v: &mut Vec<ComponentId>, ids: Vec<ComponentId>)
    ensures
        final(v)@ == old(v)@ + ids@,
{
    let mut ids = ids;
    let ghost v0 = v@;
    let ghost all = ids@;
    let mut i: usize = 0;
    while i < ids.len()
        invariant
            0 <= i <= ids@.len(),
            ids@ == all,
            v@ == v0 + all.take(i as int),
        decreases ids@.len() - i,
    {
        v.push(ids[i]);
        proof {
            assert(all.take(i + 1) =~= all.take(i as int).push(all[i as int]));
            assert(v@ =~= v0 + all.take(i + 1));
        }
        i = i + 1;
    }
    proof {
        assert(all.take(i as int) =~= all);
    }
}

impl ObserverBuilder {
    /// A builder whose host is a freshly reserved entity.
    pub fn new(commands: &mut Commands, event_type: u64) -> (r: ObserverBuilder)
        requires
            old(commands).wf(),
            old(commands).can_spawn(),
            old(commands).components.is_registered(event_type),
        ensures
            final(commands).wf(),
            r.entity.index == old(commands).next_index(),
            final(commands).next_index() == old(commands).next_index() + 1,
            final(commands).queued() == old(commands).queued().push(Command::Spawn(r.entity)),
            final(commands).components == old(commands).components,
            r.descriptor.events@ == initial_events(*old(commands), event_type),
            r.descriptor.components@.len() == 0,
            r.descriptor.sources@.len() == 0,
            r.event_type == event_type,
    {
        let entity = commands.spawn_empty();
        ObserverBuilder::new_with_entity(commands, entity, event_type)
    }

    /// A builder hosted by `entity`.
    pub fn new_with_entity(commands: &Commands, entity: Entity, event_type: u64) -> (r:
        ObserverBuilder)
        requires
            commands.wf(),
            commands.components.is_registered(event_type),
        ensures
            r.entity == entity,
            r.descriptor.events@ == initial_events(*commands, event_type),
            r.descriptor.components@.len() == 0,
            r.descriptor.sources@.len() == 0,
            r.event_type == event_type,
    {
        let mut descriptor = ObserverDescriptor::catch_all();
        let event = match commands.components.get_id(event_type) {
            Some(id) => id,
            None => NO_EVENT,
        };
        if event != NO_EVENT {
            descriptor.events.push(event);
        }
        ObserverBuilder { entity, descriptor, event_type }
    }

    /// Adds the event kind `event_type`; the callback then no longer reads a
    /// typed payload.
    pub fn on_event(self, commands: &Commands, event_type: u64) -> (r: ObserverBuilder)
        requires
            commands.wf(),
            commands.components.is_registered(event_type),
        ensures
            r.entity == self.entity,
            r.descriptor.events@ == self.descriptor.events@.push(
                commands.components.id_of(event_type),
            ),
            r.descriptor.components == self.descriptor.components,
            r.descriptor.sources == self.descriptor.sources,
            r.event_type == NO_EVENT_TYPE,
    {
        let mut b = self;
        let event = match commands.components.get_id(event_type) {
            Some(id) => id,
            None => NO_EVENT,
        };
        b.descriptor.events.push(event);
        b.event_type = NO_EVENT_TYPE;
        b
    }

    /// Adds the event kinds `events`; the callback then no longer reads a
    /// typed payload.
    pub fn on_event_ids(self, events: Vec<ComponentId>) -> (r: ObserverBuilder)
        ensures
            r.entity == self.entity,
            r.descriptor.events@ == self.descriptor.events@ + events@,
            r.descriptor.components == self.descriptor.components,
            r.descriptor.sources == self.descriptor.sources,
            r.event_type == NO_EVENT_TYPE,
    {
        let mut b = self;
        append_ids(&mut b.descriptor.events, events);
        b.event_type = NO_EVENT_TYPE;
        b
    }

    /// Adds the component kinds of the bundle whose type keys are `bundle`.
    pub fn components(self, commands: &Commands, bundle: &Vec<u64>) -> (r: ObserverBuilder)
        requires
            commands.wf(),
            all_registered(*commands, bundle@),
        ensures
            r.entity == self.entity,
            r.descriptor.events == self.descriptor.events,
            r.descriptor.components@ == self.descriptor.components@ + ids_of(*commands, bundle@),
            r.descriptor.sources == self.descriptor.sources,
            r.event_type == self.event_type,
    {
        let mut b = self;
        match commands.components.get_ids(bundle) {
            Some(ids) => append_ids(&mut b.descriptor.components, ids),
            None => {},
        }
        b
    }

    /// Adds the component kinds `ids`.
    pub fn component_ids(self, ids: Vec<ComponentId>) -> (r: ObserverBuilder)
        ensures
            r.entity == self.entity,
            r.descriptor.events == self.descriptor.events,
            r.descriptor.components@ == self.descriptor.components@ + ids@,
            r.descriptor.sources == self.descriptor.sources,
            r.event_type == self.event_type,
    {
        let mut b = self;
        append_ids(&mut b.descriptor.components, ids);
        b
    }

    /// Adds `source` to the source entities.
    pub fn source(self, source: Entity) -> (r: ObserverBuilder)
        ensures
            r.entity == self.entity,
            r.descriptor.events == self.descriptor.events,
            r.descriptor.components == self.descriptor.components,
            r.descriptor.sources@ == self.descriptor.sources@.push(source),
            r.event_type == self.event_type,
    {
        let mut b = self;
        b.descriptor.sources.push(source);
        b
    }

    /// Finishes with `callback`: its bundle's component kinds join the
    /// criteria, and the record's attachment to the host is queued.
    pub fn run(self, commands: &mut Commands, callback: ObserverSystem) -> (r: Entity)
        requires
            old(commands).wf(),
            all_registered(*old(commands), callback.bundle@),
            !callback.exclusive,
        ensures
            r == self.entity,
            final(commands).wf(),
            final(commands).components == old(commands).components,
            final(commands).next_index() == old(commands).next_index(),
            final(commands).queued().len() == old(commands).queued().len() + 1,
            final(commands).queued().drop_last() == old(commands).queued(),
            final(commands).queued().last() matches Command::BuildObserver(e, d, s) && e
                == self.entity && d.events@ == self.descriptor.events@ && d.components@
                == self.descriptor.components@ + ids_of(*old(commands), callback.bundle@)
                && d.sources@ == self.descriptor.sources@ && s == callback,
    {
        let mut descriptor = self.descriptor;
        match commands.components.get_ids(&callback.bundle) {
            Some(ids) => append_ids(&mut descriptor.components, ids),
            None => {},
        }
        let entity = self.entity;
        let ghost q0 = commands.queued();
        commands.add(Command::BuildObserver(entity, descriptor, callback));
        proof {
            assert(commands.queued().drop_last() =~= q0);
        }
        entity
    }

    /// Finishes with `runner` in place of a callback, queueing the record's
    /// attachment to the host.
    pub fn runner(self, commands: &mut Commands, runner: ObserverRunner) -> (r: Entity)
        requires
            old(commands).wf(),
        ensures
            r == self.entity,
            final(commands).wf(),
            final(commands).components == old(commands).components,
            final(commands).next_index() == old(commands).next_index(),
            final(commands).queued().len() == old(commands).queued().len() + 1,
            final(commands).queued().drop_last() == old(commands).queued(),
            final(commands).queued().last() matches Command::InsertObserver(e, c) && e
                == self.entity && c.descriptor == self.descriptor && c.runner == runner
                && c.system is None && c.last_event_id == 0,
    {
        let entity = self.entity;
        let component = ObserverComponent::from_runner(self.descriptor, runner);
        let ghost q0 = commands.queued();
        commands.add(Command::InsertObserver(entity, component));
        proof {
            assert(commands.queued().drop_last() =~= q0);
        }
        entity
    }
}

/// Accumulates an event's targets and payload before it is emitted.
#[derive(Debug)]
pub struct EventBuilder {
    pub event: Option<ComponentId>,
    pub event_type: u64,
    pub targets: Vec<Entity>,
    pub components: Vec<ComponentId>,
    pub data: Option<u64>,
}

impl EventBuilder {
    /// A builder for an event of kind `event_type` carrying `data`.
    pub fn new(data: u64, event_type: u64) -> (r: EventBuilder)
        ensures
            r.event is None,
            r.event_type == event_type,
            r.targets@.len() == 0,
            r.components@.len() == 0,
            r.data == Some(data),
    {
        EventBuilder {
            event: None,
            event_type,
            targets: Vec::new(),
            components: Vec::new(),
            data: Some(data),
        }
    }

    /// Adds `target` to the targeted entities.
    pub fn entity(self, target: Entity) -> (r: EventBuilder)
        ensures
            r.targets@ == self.targets@.push(target),
            r.event == self.event,
            r.event_type == self.event_type,
            r.components == self.components,
            r.data == self.data,
    {
        let mut b = self;
        b.targets.push(target);
        b
    }

    /// Overrides the event kind the emission is dispatched as. The caller
    /// asserts that kind `id` has the payload's layout.
    pub fn event_id(self, id: ComponentId) -> (r: EventBuilder)
        ensures
            r.event == Some(id),
            r.event_type == self.event_type,
            r.targets == self.targets,
            r.components == self.components,
            r.data == self.data,
    {
        let mut b = self;
        b.event = Some(id);
        b
    }

    /// Adds `component_id` to the targeted component kinds.
    pub fn component(self, component_id: ComponentId) -> (r: EventBuilder)
        ensures
            r.components@ == self.components@.push(component_id),
            r.event == self.event,
            r.event_type == self.event_type,
            r.targets == self.targets,
            r.data == self.data,
    {
        let mut b = self;
        b.components.push(component_id);
        b
    }

    /// The kind an emission of this builder is dispatched as.
    pub open spec fn spec_event_kind(&self, commands: Commands) -> ComponentId {
        match self.event {
            Some(id) => id,
            None => commands.components.id_of(self.event_type),
        }
    }

    /// Queues the emission, moving the payload and targets out of the builder.
    pub fn emit(&mut self, commands: &mut Commands)
        requires
            old(commands).wf(),
            old(self).data is Some,
            old(self).event is None ==> old(commands).components.is_registered(
                old(self).event_type,
            ),
        ensures
            final(commands).wf(),
            final(commands).components == old(commands).components,
            final(commands).next_index() == old(commands).next_index(),
            final(commands).queued().len() == old(commands).queued().len() + 1,
            final(commands).queued().drop_last() == old(commands).queued(),
            final(commands).queued().last() matches Command::Emit(ev) && ev.event
                == old(self).spec_event_kind(*old(commands)) && ev.data == old(self).data.unwrap()
                && ev.entities@ == old(self).targets@ && ev.components@ == old(self).components@,
            final(self).data is None,
            final(self).targets@.len() == 0,
            final(self).components@.len() == 0,
            final(self).event == old(self).event,
            final(self).event_type == old(self).event_type,
    {
        let event = match self.event {
            Some(id) => id,
            None => match commands.components.get_id(self.event_type) {
                Some(id) => id,
                None => NO_EVENT,
            },
        };
        let mut data: Option<u64> = None;
        std::mem::swap(&mut data, &mut self.data);
        let mut entities: Vec<Entity> = Vec::new();
        std::mem::swap(&mut entities, &mut self.targets);
        let mut components: Vec<ComponentId> = Vec::new();
        std::mem::swap(&mut components, &mut self.components);
        let payload = match data {
            Some(d) => d,
            None => 0,
        };
        let ghost q0 = commands.queued();
        commands.add(Command::Emit(EmitEcsEvent { event, data: payload, entities, components }));
        proof {
            assert(commands.queued().drop_last() =~= q0);
        }
    }
}

impl Commands {
    /// A builder for an event of kind `event_type` carrying `data`.
    pub fn event(&mut self, data: u64, event_type: u64) -> (r: EventBuilder)
        ensures
            r.event is None,
            r.event_type == event_type,
            r.targets@.len() == 0,
            r.components@.len() == 0,
            r.data == Some(data),
            *final(self) == *old(self),
    {
        EventBuilder::new(data, event_type)
    }

    /// A builder for an observer of `event_type` on a freshly reserved entity.
    pub fn observer_builder(&mut self, event_type: u64) -> (r: ObserverBuilder)
        requires
            old(self).wf(),
            old(self).can_spawn(),
            old(self).components.is_registered(event_type),
        ensures
            final(self).wf(),
            r.entity.index == old(self).next_index(),
            final(self).next_index() == old(self).next_index() + 1,
            final(self).queued() == old(self).queued().push(Command::Spawn(r.entity)),
            final(self).components == old(self).components,
            r.descriptor.events@ == initial_events(*old(self), event_type),
            r.descriptor.components@.len() == 0,
            r.descriptor.sources@.len() == 0,
            r.event_type == event_type,
    {
        ObserverBuilder::new(self, event_type)
    }

    /// Spawns an observer of `event_type` running `callback` and returns its host.
    pub fn observer(&mut self, event_type: u64, callback: ObserverSystem) -> (r: Entity)
        requires
            old(self).wf(),
            old(self).can_spawn(),
            old(self).components.is_registered(event_type),
            all_registered(*old(self), callback.bundle@),
            !callback.exclusive,
        ensures
            final(self).wf(),
            r.index == old(self).next_index(),
            final(self).next_index() == old(self).next_index() + 1,
            final(self).components == old(self).components,
            final(self).queued().len() == old(self).queued().len() + 2,
            final(self).queued().take(old(self).queued().len() + 1int) == old(self).queued().push(
                Command::Spawn(r),
            ),
            final(self).queued().last() matches Command::BuildObserver(e, d, s) && e == r
                && d.events@ == initial_events(*old(self), event_type) && d.components@
                == ids_of(*old(self), callback.bundle@) && d.sources@.len() == 0 && s == callback,
    {
        let b = ObserverBuilder::new(self, event_type);
        let ghost q1 = self.queued();
        let r = b.run(self, callback);
        proof {
            assert(self.queued().take(q1.len() as int) =~= self.queued().drop_last());
            assert(b.descriptor.components@ + ids_of(*old(self), callback.bundle@) =~= ids_of(
                *old(self),
                callback.bundle@,
            ));
        }
        r
    }
}

} // verus!
