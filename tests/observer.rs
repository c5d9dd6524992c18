use ecs_observer::builder::{EventBuilder, ObserverBuilder};
use ecs_observer::descriptor::ObserverDescriptor;
use ecs_observer::entity::{Components, Entity, NO_EVENT, NO_EVENT_TYPE};
use ecs_observer::world::{Command, Invocation, ObserverRunner, ObserverSystem, World};

const DAMAGE: u64 = 1;
const HEALTH: u64 = 2;
const HEAL: u64 = 3;
const ARMOR: u64 = 4;

fn callback() -> ObserverSystem {
    ObserverSystem { bundle: Vec::new(), exclusive: false, despawn_self: false }
}

fn setup() -> (World, u64, u64, u64, u64) {
    let mut world = World::new();
    let damage = world.register_type(DAMAGE);
    let health = world.register_type(HEALTH);
    let heal = world.register_type(HEAL);
    let armor = world.register_type(ARMOR);
    (world, damage, health, heal, armor)
}

fn emit(world: &mut World, data: u64, event_type: u64, targets: &[Entity], comps: &[u64]) {
    let mut b = world.commands.event(data, event_type);
    for t in targets {
        b = b.entity(*t);
    }
    for c in comps {
        b = b.component(*c);
    }
    b.emit(&mut world.commands);
    world.flush();
}

fn runs_of(world: &World, o: Entity) -> usize {
    world.invocations().iter().filter(|i| i.observer == o).count()
}

#[test]
fn registry_assigns_ids_in_order() {
    let mut c = Components::new();
    assert_eq!(c.get_id(NO_EVENT_TYPE), Some(NO_EVENT));
    assert_eq!(c.get_id(42), None);
    assert_eq!(c.register(42), 1);
    assert_eq!(c.register(7), 2);
    assert_eq!(c.register(42), 1);
    assert_eq!(c.get_ids(&vec![7, 42]), Some(vec![2, 1]));
    assert_eq!(c.get_ids(&vec![7, 99]), None);
}

#[test]
fn descriptor_matching() {
    let mut d = ObserverDescriptor::catch_all();
    let x = Entity::from_index(3);
    let y = Entity::from_index(4);
    assert!(d.matches(5, x, &vec![]));
    d.events.push(5);
    assert!(!d.matches(6, x, &vec![]));
    d.sources.push(x);
    assert!(d.matches(5, x, &vec![]));
    assert!(!d.matches(5, y, &vec![]));
    d.components.push(9);
    assert!(!d.matches(5, x, &vec![1, 2]));
    assert!(d.matches(5, x, &vec![1, 9]));
}

#[test]
fn damage_observer_runs_once_per_emission() {
    let (mut world, damage, health, _, _) = setup();
    let target = world.commands.spawn_empty();
    let a = world
        .commands
        .observer_builder(DAMAGE)
        .component_ids(vec![health])
        .run(&mut world.commands, callback());
    world.flush();
    assert!(world.is_registered_observer(a));
    emit(&mut world, 5, DAMAGE, &[target], &[health]);
    assert_eq!(world.invocations().len(), 1);
    assert_eq!(
        world.invocations()[0],
        Invocation { observer: a, event: damage, source: target, payload: 5 }
    );
    emit(&mut world, 5, DAMAGE, &[target], &[health]);
    assert_eq!(runs_of(&world, a), 2);
    assert_eq!(world.last_event_id(), 2);
}

#[test]
fn overridden_event_id_routes_to_other_kind() {
    let (mut world, damage, _, heal, _) = setup();
    let target = world.commands.spawn_empty();
    let on_heal = world.commands.observer(HEAL, callback());
    let on_damage = world.commands.observer(DAMAGE, callback());
    world.flush();
    let mut b = world.commands.event(9, DAMAGE).event_id(heal).entity(target);
    b.emit(&mut world.commands);
    world.flush();
    assert_eq!(runs_of(&world, on_heal), 1);
    assert_eq!(runs_of(&world, on_damage), 0);
    assert_eq!(world.invocations()[0].event, heal);
    assert_ne!(heal, damage);
}

#[test]
fn scoped_observer_ignores_other_entity() {
    let (mut world, _, _, _, _) = setup();
    let x = world.commands.spawn_empty();
    let y = world.commands.spawn_empty();
    let scoped = world.commands.observer_builder(NO_EVENT_TYPE).source(x).run(&mut world.commands, callback());
    let all = world.commands.observer(NO_EVENT_TYPE, callback());
    world.flush();
    emit(&mut world, 1, DAMAGE, &[y], &[]);
    assert_eq!(runs_of(&world, scoped), 0);
    assert_eq!(runs_of(&world, all), 1);
}

#[test]
fn unlisted_event_does_not_fire() {
    let (mut world, _, _, _, _) = setup();
    let target = world.commands.spawn_empty();
    let o = world.commands.observer(DAMAGE, callback());
    world.flush();
    emit(&mut world, 1, HEAL, &[target], &[]);
    assert_eq!(runs_of(&world, o), 0);
    emit(&mut world, 1, DAMAGE, &[target], &[]);
    assert_eq!(runs_of(&world, o), 1);
}

#[test]
fn multiple_targets_fire_once() {
    let (mut world, _, health, _, armor) = setup();
    let t1 = world.commands.spawn_empty();
    let t2 = world.commands.spawn_empty();
    let o = world
        .commands
        .observer_builder(DAMAGE)
        .components(&world.commands, &vec![HEALTH, ARMOR])
        .run(&mut world.commands, callback());
    world.flush();
    emit(&mut world, 3, DAMAGE, &[t1, t2], &[health, armor]);
    assert_eq!(runs_of(&world, o), 1);
    assert_eq!(world.invocations()[0].source, t1);
}

#[test]
fn catch_all_fires_once_for_each_emission() {
    let (mut world, _, health, _, _) = setup();
    let t1 = world.commands.spawn_empty();
    let t2 = world.commands.spawn_empty();
    let o = world.commands.observer(NO_EVENT_TYPE, callback());
    world.flush();
    emit(&mut world, 1, DAMAGE, &[t1, t2], &[health]);
    emit(&mut world, 2, HEAL, &[t2], &[]);
    assert_eq!(runs_of(&world, o), 2);
}

#[test]
fn emission_without_target_skips_callback_observers() {
    let (mut world, _, _, _, _) = setup();
    let o = world.commands.observer(NO_EVENT_TYPE, callback());
    world.flush();
    emit(&mut world, 1, DAMAGE, &[], &[]);
    assert_eq!(runs_of(&world, o), 0);
    assert_eq!(world.last_event_id(), 1);
}

#[test]
fn detached_observer_stops_firing() {
    let (mut world, _, _, _, _) = setup();
    let target = world.commands.spawn_empty();
    let o = world.commands.observer(DAMAGE, callback());
    world.flush();
    emit(&mut world, 1, DAMAGE, &[target], &[]);
    assert_eq!(runs_of(&world, o), 1);
    world.commands.add(Command::RemoveObserver(o));
    world.flush();
    assert!(!world.has_observer(o));
    assert!(!world.is_registered_observer(o));
    emit(&mut world, 1, DAMAGE, &[target], &[]);
    assert_eq!(runs_of(&world, o), 1);
}

#[test]
fn callback_despawning_its_host_completes() {
    let (mut world, _, _, _, _) = setup();
    let target = world.commands.spawn_empty();
    let o = world.commands.observer(
        DAMAGE,
        ObserverSystem { bundle: Vec::new(), exclusive: false, despawn_self: true },
    );
    let other = world.commands.observer(DAMAGE, callback());
    world.flush();
    emit(&mut world, 1, DAMAGE, &[target, target], &[]);
    assert_eq!(runs_of(&world, o), 1);
    assert_eq!(runs_of(&world, other), 1);
    assert!(!world.contains_entity(o));
    assert!(!world.has_observer(o));
    assert!(!world.is_registered_observer(o));
    emit(&mut world, 1, DAMAGE, &[target], &[]);
    assert_eq!(runs_of(&world, o), 1);
    assert_eq!(runs_of(&world, other), 2);
}

#[test]
fn raw_runner_records_every_matching_trigger() {
    let (mut world, _, _, _, _) = setup();
    let t1 = world.commands.spawn_empty();
    let t2 = world.commands.spawn_empty();
    let b = world.commands.observer_builder(DAMAGE);
    let o = b.runner(&mut world.commands, ObserverRunner::Raw);
    world.flush();
    emit(&mut world, 4, DAMAGE, &[t1, t2], &[]);
    assert_eq!(runs_of(&world, o), 2);
    emit(&mut world, 4, DAMAGE, &[], &[]);
    assert_eq!(runs_of(&world, o), 3);
    assert!(world.invocations()[2].source.is_placeholder());
}

#[test]
fn exclusive_callback_is_not_attached() {
    let (mut world, _, _, _, _) = setup();
    let e = world.commands.spawn_empty();
    world.commands.add(Command::BuildObserver(
        e,
        ObserverDescriptor::catch_all(),
        ObserverSystem { bundle: Vec::new(), exclusive: true, despawn_self: false },
    ));
    world.flush();
    assert!(world.contains_entity(e));
    assert!(!world.has_observer(e));
}

#[test]
fn builder_narrows_on_second_event() {
    let (mut world, damage, _, heal, _) = setup();
    let b = ObserverBuilder::new(&mut world.commands, DAMAGE);
    assert_eq!(b.descriptor.events, vec![damage]);
    assert_eq!(b.event_type, DAMAGE);
    let b = b.on_event(&world.commands, HEAL);
    assert_eq!(b.descriptor.events, vec![damage, heal]);
    assert_eq!(b.event_type, NO_EVENT_TYPE);
    let b = b.on_event_ids(vec![7]);
    assert_eq!(b.descriptor.events, vec![damage, heal, 7]);
    let none = ObserverBuilder::new_with_entity(&world.commands, b.entity, NO_EVENT_TYPE);
    assert!(none.descriptor.events.is_empty());
}

#[test]
fn run_adds_callback_bundle_components() {
    let (mut world, _, health, _, armor) = setup();
    let target = world.commands.spawn_empty();
    let o = world.commands.observer(
        DAMAGE,
        ObserverSystem { bundle: vec![ARMOR], exclusive: false, despawn_self: false },
    );
    world.flush();
    emit(&mut world, 1, DAMAGE, &[target], &[health]);
    assert_eq!(runs_of(&world, o), 0);
    emit(&mut world, 1, DAMAGE, &[target], &[armor]);
    assert_eq!(runs_of(&world, o), 1);
}

#[test]
fn emit_empties_the_builder() {
    let (mut world, _, _, _, _) = setup();
    let t = world.commands.spawn_empty();
    let mut b = EventBuilder::new(8, DAMAGE).entity(t).component(3);
    b.emit(&mut world.commands);
    assert!(b.data.is_none());
    assert!(b.targets.is_empty());
    assert!(b.components.is_empty());
    world.flush();
    assert_eq!(world.last_event_id(), 1);
}
