use vstd::prelude::*;

use crate::descriptor::{copy_entities, desc_matches, DescriptorView};
use crate::entity::{ComponentId, Entity};
use crate::world::{
    is_hook, record_in, Command, EmitEcsEvent, Invocation, ObserverComponent, ObserverRunner, ObserverSystem,
    World,
};

verus! {

/// The source entities an emission triggers with: its targets, or the
/// placeholder alone when it has none.
pub open spec fn triggers(targets: Seq<Entity>) -> Seq<Entity> {
    if targets.len() == 0 {
        seq![Entity::spec_placeholder()]
    } else {
        targets
    }
}

pub open spec fn invocation(o: Entity, event: ComponentId, source: Entity, payload: u64) -> Invocation {
    Invocation { observer: o, event, source, payload }
}

/// The first trigger in `ts` that is a real entity and matches `d`.
pub open spec fn first_source(
    d: DescriptorView,
    event: ComponentId,
    ts: Seq<Entity>,
    comps: Seq<ComponentId>,
) -> Option<Entity>
    decreases ts.len(),
{
    if ts.len() == 0 {
        None
    } else {
        match first_source(d, event, ts.drop_last(), comps) {
            Some(s) => Some(s),
            None => if ts.last() != Entity::spec_placeholder() && desc_matches(
                d,
                event,
                ts.last(),
                comps,
            ) {
                Some(ts.last())
            } else {
                None
            },
        }
    }
}

/// The runs of a raw-runner observer: one for each matching trigger.
pub open spec fn raw_invocations(
    o: Entity,
    d: DescriptorView,
    event: ComponentId,
    ts: Seq<Entity>,
    comps: Seq<ComponentId>,
    payload: u64,
) -> Seq<Invocation>
    decreases ts.len(),
{
    if ts.len() == 0 {
        seq![]
    } else {
        raw_invocations(o, d, event, ts.drop_last(), comps, payload) + if desc_matches(
            d,
            event,
            ts.last(),
            comps,
        ) {
            seq![invocation(o, event, ts.last(), payload)]
        } else {
            seq![]
        }
    }
}

/// The runs of observer `o`, holding `rec`, for one emission whose counter is
/// `counter`. A callback observer runs once, for its first matching real
/// source, unless it already ran for this emission or has no callback.
pub open spec fn observer_invocations(
    rec: Option<ObserverComponent>,
    o: Entity,
    event: ComponentId,
    ts: Seq<Entity>,
    comps: Seq<ComponentId>,
    payload: u64,
    counter: u64,
) -> Seq<Invocation> {
    match rec {
        None => seq![],
        Some(c) => match c.runner {
            ObserverRunner::Raw => raw_invocations(o, c.descriptor@, event, ts, comps, payload),
            ObserverRunner::System => if c.system is Some && c.last_event_id != counter {
                match first_source(c.descriptor@, event, ts, comps) {
                    Some(s) => seq![invocation(o, event, s, payload)],
                    None => seq![],
                }
            } else {
                seq![]
            },
        },
    }
}

/// The runs that one emission causes, observer by observer in index order.
pub open spec fn emission_invocations(
    records: Seq<Option<ObserverComponent>>,
    regs: Seq<Entity>,
    event: ComponentId,
    ts: Seq<Entity>,
    comps: Seq<ComponentId>,
    payload: u64,
    counter: u64,
) -> Seq<Invocation>
    decreases regs.len(),
{
    if regs.len() == 0 {
        seq![]
    } else {
        emission_invocations(records, regs.drop_last(), event, ts, comps, payload, counter)
            + observer_invocations(
            record_in(records, regs.last()),
            regs.last(),
            event,
            ts,
            comps,
            payload,
            counter,
        )
    }
}

/// Whether the callback observer holding `rec` runs for one emission whose
/// counter is `counter`.
pub open spec fn ran(
    rec: Option<ObserverComponent>,
    event: ComponentId,
    ts: Seq<Entity>,
    comps: Seq<ComponentId>,
    counter: u64,
) -> bool {
    rec matches Some(r) && r.runner == ObserverRunner::System && r.system is Some
        && r.last_event_id != counter && first_source(r.descriptor@, event, ts, comps) is Some
}

/// The record `rec` after one emission: a callback that ran is put back with
/// the emission's counter stored, unless it despawned its own host.
pub open spec fn record_after(
    rec: Option<ObserverComponent>,
    event: ComponentId,
    ts: Seq<Entity>,
    comps: Seq<ComponentId>,
    counter: u64,
) -> Option<ObserverComponent> {
    if ran(rec, event, ts, comps, counter) {
        if rec.unwrap().system.unwrap().despawn_self {
            None
        } else {
            Some(ObserverComponent { last_event_id: counter, ..rec.unwrap() })
        }
    } else {
        rec
    }
}

/// The runs one dispatch of `ev` on `w` appends to the log.
pub open spec fn dispatched(w: World, ev: EmitEcsEvent) -> Seq<Invocation> {
    emission_invocations(
        w.records_view(),
        w.registered_view(),
        ev.event,
        triggers(ev.entities@),
        ev.components@,
        ev.data,
        (w.counter() + 1) as u64,
    )
}

/// Whether `rec` is a callback record whose callback despawns its own host.
pub open spec fn despawns_self(rec: Option<ObserverComponent>) -> bool {
    rec matches Some(r) && r.runner == ObserverRunner::System && (r.system matches Some(s)
        && s.despawn_self)
}

/// `after` is `before` with lifecycle notifications appended.
pub open spec fn grows_by_hooks(before: Seq<Command>, after: Seq<Command>) -> bool {
    &&& before.len() <= after.len()
    &&& after.subrange(0, before.len() as int) == before
    &&& forall|i: int| before.len() <= i < after.len() ==> is_hook(#[trigger] after[i])
}

pub proof fn lemma_grows_trans(a: Seq<Command>, b: Seq<Command>, c: Seq<Command>)
    requires
        grows_by_hooks(a, b),
        grows_by_hooks(b, c),
    ensures
        grows_by_hooks(a, c),
{
    assert(c.subrange(0, a.len() as int) =~= b.subrange(0, a.len() as int));
    assert forall|i: int| a.len() <= i < c.len() implies is_hook(#[trigger] c[i]) by {
        if i < b.len() {
            assert(c[i] == c.subrange(0, b.len() as int)[i]);
        }
    }
}

pub proof fn lemma_grows_keeps(a: Seq<Command>, b: Seq<Command>, x: Command)
    requires
        grows_by_hooks(a, b),
        a.contains(x),
    ensures
        b.contains(x),
{
    let w = choose|w: int| 0 <= w < a.len() && a[w] == x;
    assert(b.subrange(0, a.len() as int)[w] == b[w]);
}

pub proof fn lemma_grows_refl(a: Seq<Command>)
    ensures
        grows_by_hooks(a, a),
{
    assert(a.subrange(0, a.len() as int) =~= a);
}

/// Frame shared by the dispatch steps: what a step on observer slot `idx`
/// leaves alone.
pub open spec fn same_but(w0: World, w1: World, idx: int) -> bool {
    &&& w1.wf()
    &&& w1.records_view().len() == w0.records_view().len()
    &&& forall|k: int| 0 <= k < w0.records_view().len() && k != idx
        ==> #[trigger] w1.records_view()[k] == w0.records_view()[k] && w1.alive_view()[k]
        == w0.alive_view()[k]
    &&& w1.registered_view() == w0.registered_view()
    &&& w1.counter() == w0.counter()
    &&& w1.commands.components == w0.commands.components
    &&& w1.commands.next_index() == w0.commands.next_index()
    &&& grows_by_hooks(w0.commands.queued(), w1.commands.queued())
}

/// `w1` holds the same state as `w0`.
pub open spec fn unchanged(w0: World, w1: World) -> bool {
    &&& w1.records_view() == w0.records_view()
    &&& w1.alive_view() == w0.alive_view()
    &&& w1.registered_view() == w0.registered_view()
    &&& w1.log_view() == w0.log_view()
    &&& w1.counter() == w0.counter()
    &&& w1.commands.queued() == w0.commands.queued()
    &&& w1.commands.components == w0.commands.components
    &&& w1.commands.next_index() == w0.commands.next_index()
}

impl World {
    /// Despawns `e` at once; if it held an observer record, the record goes
    /// and the index's update is queued.
    pub fn despawn(&mut self, e: Entity)
        requires
            old(self).wf(),
        ensures
            final(self).wf(),
            same_but(*old(self), *final(self), e.index as int),
            final(self).log_view() == old(self).log_view(),
            !final(self).is_alive(e),
            final(self).record(e) is None,
            old(self).record(e) is Some ==> final(self).commands.queued() == old(self).commands.queued().push(Command::UnregisterObserver(e)),
            old(self).record(e) is None ==> final(self).commands.queued() == old(self).commands.queued(),
            !old(self).is_alive(e) ==> unchanged(*old(self), *final(self)),
    {
        let idx = e.index as usize;
        proof {
            lemma_grows_refl(self.commands.queued());
        }
        if idx < self.alive.len() && self.alive[idx] {
            self.alive.set(idx, false);
            let mut slot: Option<ObserverComponent> = None;
            self.records.set_and_swap(idx, &mut slot);
            if slot.is_some() {
                let ghost q0 = self.commands.queued();
                self.commands.add(Command::UnregisterObserver(e));
                proof {
                    assert(self.commands.queued().subrange(0, q0.len() as int) =~= q0);
                }
            }
        }
    }

    /// One trigger of a callback observer: look the record up, skip if it
    /// already ran for this emission, take the callback out, run it and apply
    /// what it queued, then put the callback back if the record still exists.
    fn run_system(&mut self, o: Entity, source: Entity, event: ComponentId, payload: u64)
        requires
            old(self).wf(),
            (o.index as int) < old(self).records_view().len(),
            old(self).record(o) matches Some(r) ==> r.system is Some && r.runner
                == ObserverRunner::System,
        ensures
            same_but(*old(self), *final(self), o.index as int),
            final(self).record(o) matches Some(r) ==> r.system is Some && r.runner
                == ObserverRunner::System,
            (old(self).record(o) is None || old(self).record(o).unwrap().last_event_id == old(self).counter()) ==> unchanged(*old(self), *final(self)),
            old(self).record(o) matches Some(r) && r.last_event_id != old(self).counter() ==> {
                &&& final(self).log_view() == old(self).log_view().push(
                    invocation(o, event, source, payload),
                )
                &&& (final(self).record(o) is None || final(self).record(o).unwrap().last_event_id
                    == final(self).counter())
                &&& (old(self).record(o).unwrap().system.unwrap().despawn_self ==> final(self).record(o) is None && !final(self).is_alive(o))
                &&& (old(self).record(o).unwrap().system.unwrap().despawn_self ==> final(self).commands.queued().contains(Command::UnregisterObserver(o)))
                &&& (!old(self).record(o).unwrap().system.unwrap().despawn_self ==> final(self).record(o)
                    == Some(ObserverComponent { last_event_id: old(self).counter(), ..old(self).record(o).unwrap() }))
            },
    {
        let idx = o.index as usize;
        let ghost w0 = *self;
        proof {
            lemma_grows_refl(self.commands.queued());
        }
        let mut slot: Option<ObserverComponent> = None;
        self.records.set_and_swap(idx, &mut slot);
        let mut rec = match slot {
            None => {
                self.records.set(idx, None);
                assert(self.records@ =~= w0.records@);
                return ;
            },
            Some(rec) => rec,
        };
        if rec.last_event_id == self.last_event_id {
            self.records.set(idx, Some(rec));
            assert(self.records@ =~= w0.records@);
            return ;
        }
        rec.last_event_id = self.last_event_id;
        let mut system: Option<ObserverSystem> = None;
        std::mem::swap(&mut system, &mut rec.system);
        self.records.set(idx, Some(rec));
        let sys = match system {
            Some(sys) => sys,
            None => {
                return ;
            },
        };
        self.log.push(Invocation { observer: o, event, source, payload });
        if sys.despawn_self {
            self.despawn(o);
            proof {
                let qq = self.commands.queued();
                assert(qq[qq.len() - 1] == Command::UnregisterObserver(o));
            }
        }
        let mut back: Option<ObserverComponent> = None;
        self.records.set_and_swap(idx, &mut back);
        match back {
            Some(mut rec) => {
                rec.system = Some(sys);
                self.records.set(idx, Some(rec));
            },
            None => {
                self.records.set(idx, None);
            },
        }
    }

    /// All triggers of one emission for observer `o`, through its runner.
    fn run_observer(
        &mut self,
        o: Entity,
        ts: &Vec<Entity>,
        comps: &Vec<ComponentId>,
        event: ComponentId,
        payload: u64,
    )
        requires
            old(self).wf(),
            old(self).record(o) matches Some(r) ==> r.last_event_id != old(self).counter(),
        ensures
            same_but(*old(self), *final(self), o.index as int),
            final(self).log_view() == old(self).log_view() + observer_invocations(
                old(self).record(o),
                o,
                event,
                ts@,
                comps@,
                payload,
                old(self).counter(),
            ),
            despawns_self(old(self).record(o)) && observer_invocations(
                old(self).record(o),
                o,
                event,
                ts@,
                comps@,
                payload,
                old(self).counter(),
            ).len() > 0 ==> final(self).record(o) is None && !final(self).is_alive(o),
            final(self).record(o) == record_after(
                old(self).record(o),
                event,
                ts@,
                comps@,
                old(self).counter(),
            ),
            ran(old(self).record(o), event, ts@, comps@, old(self).counter()) && old(self).record(
                o,
            ).unwrap().system.unwrap().despawn_self ==> final(self).commands.queued().contains(
                Command::UnregisterObserver(o),
            ),
    {
        let ghost w0 = *self;
        proof {
            lemma_grows_refl(self.commands.queued());
            assert(w0.log_view() + seq![] =~= w0.log_view());
        }
        let idx = o.index as usize;
        if idx >= self.records.len() {
            return ;
        }
        let (d, runner, has_system) = match &self.records[idx] {
            None => {
                return ;
            },
            Some(rec) => (rec.descriptor.duplicate(), rec.runner, rec.system.is_some()),
        };
        let ghost rec0 = w0.record(o).unwrap();
        let mut j: usize = 0;
        match runner {
            ObserverRunner::Raw => {
                while j < ts.len()
                    invariant
                        0 <= j <= ts@.len(),
                        self.records_view() == w0.records_view(),
                        self.alive_view() == w0.alive_view(),
                        self.registered_view() == w0.registered_view(),
                        self.counter() == w0.counter(),
                        self.commands == w0.commands,
                        d@ == rec0.descriptor@,
                        w0.wf(),
                        self.log_view() == w0.log_view() + raw_invocations(
                            o,
                            rec0.descriptor@,
                            event,
                            ts@.take(j as int),
                            comps@,
                            payload,
                        ),
                    decreases ts@.len() - j,
                {
                    let ghost prev = raw_invocations(
                        o,
                        rec0.descriptor@,
                        event,
                        ts@.take(j as int),
                        comps@,
                        payload,
                    );
                    proof {
                        assert(ts@.take(j + 1).drop_last() =~= ts@.take(j as int));
                        assert(ts@.take(j + 1).last() == ts@[j as int]);
                    }
                    if d.matches(event, ts[j], comps) {
                        self.log.push(Invocation { observer: o, event, source: ts[j], payload });
                        proof {
                            assert(self.log_view() =~= w0.log_view() + (prev + seq![
                                invocation(o, event, ts@[j as int], payload),
                            ]));
                        }
                    } else {
                        assert(prev + seq![] =~= prev);
                    }
                    j = j + 1;
                }
                proof {
                    assert(ts@.take(j as int) =~= ts@);
                }
            },
            ObserverRunner::System => {
                if !has_system {
                    return ;
                }
                while j < ts.len()
                    invariant
                        0 <= j <= ts@.len(),
                        w0.wf(),
                        idx == o.index,
                        (idx as int) < w0.records_view().len(),
                        rec0.runner == ObserverRunner::System,
                        rec0.system is Some,
                        rec0.last_event_id != w0.counter(),
                        w0.record(o) == Some(rec0),
                        d@ == rec0.descriptor@,
                        same_but(w0, *self, idx as int),
                        self.record(o) matches Some(r) ==> r.system is Some && r.runner
                            == ObserverRunner::System,
                        first_source(rec0.descriptor@, event, ts@.take(j as int), comps@) is None
                            ==> unchanged(w0, *self),
                        first_source(rec0.descriptor@, event, ts@.take(j as int), comps@) matches Some(
                            s,
                        ) ==> self.log_view() == w0.log_view().push(
                            invocation(o, event, s, payload),
                        ) && (self.record(o) is None || self.record(o).unwrap().last_event_id
                            == self.counter()),
                        first_source(rec0.descriptor@, event, ts@.take(j as int), comps@) is Some
                            && !rec0.system.unwrap().despawn_self ==> self.record(o) == Some(
                            ObserverComponent { last_event_id: w0.counter(), ..rec0 },
                        ),
                        first_source(rec0.descriptor@, event, ts@.take(j as int), comps@) is Some
                            && rec0.system.unwrap().despawn_self ==> self.record(o) is None
                            && !self.is_alive(o),
                        first_source(rec0.descriptor@, event, ts@.take(j as int), comps@) is Some
                            && rec0.system.unwrap().despawn_self
                            ==> self.commands.queued().contains(Command::UnregisterObserver(o)),
                    decreases ts@.len() - j,
                {
                    let s = ts[j];
                    let ghost w1 = *self;
                    if !s.is_placeholder() && d.matches(event, s, comps) {
                        self.run_system(o, s, event, payload);
                        proof {
                            lemma_grows_trans(
                                w0.commands.queued(),
                                w1.commands.queued(),
                                self.commands.queued(),
                            );
                            if w1.commands.queued().contains(Command::UnregisterObserver(o)) {
                                lemma_grows_keeps(
                                    w1.commands.queued(),
                                    self.commands.queued(),
                                    Command::UnregisterObserver(o),
                                );
                            }
                        }
                    }
                    proof {
                        assert(ts@.take(j + 1).drop_last() =~= ts@.take(j as int));
                    }
                    j = j + 1;
                }
                proof {
                    assert(ts@.take(j as int) =~= ts@);
                }
            },
        }
    }

    /// Dispatches one emission: advances the counter once, then runs every
    /// observer of the index against the emission's triggers.
    pub fn dispatch(&mut self, ev: EmitEcsEvent)
        requires
            old(self).wf(),
            old(self).counter() < u64::MAX,
        ensures
            final(self).wf(),
            final(self).counter() == old(self).counter() + 1,
            final(self).registered_view() == old(self).registered_view(),
            final(self).records_view().len() == old(self).records_view().len(),
            final(self).commands.components == old(self).commands.components,
            final(self).commands.next_index() == old(self).commands.next_index(),
            grows_by_hooks(old(self).commands.queued(), final(self).commands.queued()),
            final(self).log_view() == old(self).log_view() + emission_invocations(
                old(self).records_view(),
                old(self).registered_view(),
                ev.event,
                triggers(ev.entities@),
                ev.components@,
                ev.data,
                final(self).counter(),
            ),
            forall|o: Entity|
                old(self).registered_view().contains(o) && despawns_self(#[trigger] old(self).record(o))
                    && first_source(
                    old(self).record(o).unwrap().descriptor@,
                    ev.event,
                    triggers(ev.entities@),
                    ev.components@,
                ) is Some ==> final(self).record(o) is None && !final(self).is_alive(o),
            forall|o: Entity|
                old(self).registered_view().contains(o) && #[trigger] ran(
                    old(self).record(o),
                    ev.event,
                    triggers(ev.entities@),
                    ev.components@,
                    final(self).counter(),
                ) && old(self).record(o).unwrap().system.unwrap().despawn_self
                    ==> final(self).commands.queued().contains(Command::UnregisterObserver(o)),
            forall|o: Entity| #[trigger]
                final(self).record(o) == if old(self).registered_view().contains(o) {
                    record_after(
                        old(self).record(o),
                        ev.event,
                        triggers(ev.entities@),
                        ev.components@,
                        final(self).counter(),
                    )
                } else {
                    old(self).record(o)
                },
    {
        let ghost w_old = *self;
        self.last_event_id = self.last_event_id + 1;
        let ghost w1 = *self;
        let EmitEcsEvent { event, data, entities, components } = ev;
        let ts: Vec<Entity> = if entities.len() == 0 {
            let mut v: Vec<Entity> = Vec::new();
            v.push(Entity::placeholder());
            v
        } else {
            entities
        };
        proof {
            assert(ts@ =~= triggers(ev.entities@));
            lemma_grows_refl(self.commands.queued());
            assert(w1.log_view() + seq![] =~= w1.log_view());
        }
        let regs = copy_entities(&self.registered);
        let ghost c = self.last_event_id;
        let mut i: usize = 0;
        while i < regs.len()
            invariant
                0 <= i <= regs@.len(),
                w1.wf(),
                w1.counter() == c,
                regs@ == w1.registered_view(),
                regs@.no_duplicates(),
                w1.records_view() == w_old.records_view(),
                forall|k: int|
                    0 <= k < w1.records_view().len() && (#[trigger] w1.records_view()[k]) is Some
                        ==> w1.records_view()[k].unwrap().last_event_id < c,
                self.wf(),
                self.counter() == c,
                self.registered_view() == w1.registered_view(),
                self.records_view().len() == w1.records_view().len(),
                self.commands.components == w1.commands.components,
                self.commands.next_index() == w1.commands.next_index(),
                grows_by_hooks(w1.commands.queued(), self.commands.queued()),
                forall|j: int|
                    i <= j < regs@.len() ==> record_in(self.records_view(), #[trigger] regs@[j])
                        == record_in(w1.records_view(), regs@[j]),
                self.log_view() == w1.log_view() + emission_invocations(
                    w1.records_view(),
                    regs@.take(i as int),
                    event,
                    ts@,
                    components@,
                    data,
                    c,
                ),
                forall|j: int|
                    0 <= j < i && despawns_self(#[trigger] record_in(w1.records_view(), regs@[j]))
                        && first_source(
                        record_in(w1.records_view(), regs@[j]).unwrap().descriptor@,
                        event,
                        ts@,
                        components@,
                    ) is Some ==> self.record(regs@[j]) is None && !self.is_alive(regs@[j]),
                forall|j: int|
                    0 <= j < i && #[trigger] ran(record_in(w1.records_view(), regs@[j]), event, ts@, components@, c)
                        && record_in(w1.records_view(), regs@[j]).unwrap().system.unwrap().despawn_self
                        ==> self.commands.queued().contains(Command::UnregisterObserver(regs@[j])),
                forall|x: Entity| #[trigger]
                    self.record(x) == if regs@.take(i as int).contains(x) {
                        record_after(w1.record(x), event, ts@, components@, c)
                    } else {
                        w1.record(x)
                    },
            decreases regs@.len() - i,
        {
            let o = regs[i];
            let ghost w2 = *self;
            let ghost prev = emission_invocations(
                w1.records_view(),
                regs@.take(i as int),
                event,
                ts@,
                components@,
                data,
                c,
            );
            proof {
                assert(regs@[i as int] == o);
            }
            self.run_observer(o, &ts, &components, event, data);
            proof {
                lemma_grows_trans(
                    w1.commands.queued(),
                    w2.commands.queued(),
                    self.commands.queued(),
                );
                assert(regs@.take(i + 1).drop_last() =~= regs@.take(i as int));
                assert(regs@.take(i + 1).last() == o);
                assert(self.log_view() =~= w1.log_view() + emission_invocations(
                    w1.records_view(),
                    regs@.take(i + 1),
                    event,
                    ts@,
                    components@,
                    data,
                    c,
                ));
                assert forall|j: int| i + 1 <= j < regs@.len() implies record_in(
                    self.records_view(),
                    #[trigger] regs@[j],
                ) == record_in(w1.records_view(), regs@[j]) by {
                    assert(regs@[j] != regs@[i as int]);
                    assert(record_in(w2.records_view(), regs@[j]) == record_in(
                        w1.records_view(),
                        regs@[j],
                    ));
                }
                assert forall|j: int|
                    0 <= j < i + 1 && despawns_self(#[trigger] record_in(w1.records_view(), regs@[j]))
                        && first_source(
                        record_in(w1.records_view(), regs@[j]).unwrap().descriptor@,
                        event,
                        ts@,
                        components@,
                    ) is Some implies self.record(regs@[j]) is None && !self.is_alive(regs@[j]) by {
                    if j < i {
                        assert(regs@[j] != regs@[i as int]);
                        assert(w2.record(regs@[j]) is None && !w2.is_alive(regs@[j]));
                    } else {
                        assert(regs@[j] == o);
                    }
                }
                assert forall|j: int|
                    0 <= j < i + 1 && #[trigger] ran(record_in(w1.records_view(), regs@[j]), event, ts@, components@, c)
                        && record_in(w1.records_view(), regs@[j]).unwrap().system.unwrap().despawn_self
                        implies self.commands.queued().contains(Command::UnregisterObserver(regs@[j])) by {
                    if j < i {
                        lemma_grows_keeps(
                            w2.commands.queued(),
                            self.commands.queued(),
                            Command::UnregisterObserver(regs@[j]),
                        );
                    } else {
                        assert(regs@[j] == o);
                    }
                }
                assert(!regs@.take(i as int).contains(o)) by {
                    if regs@.take(i as int).contains(o) {
                        let w = choose|w: int| 0 <= w < i && regs@.take(i as int)[w] == o;
                        assert(regs@[w] == regs@[i as int]);
                    }
                }
                assert forall|x: Entity| #[trigger]
                    self.record(x) == if regs@.take(i + 1).contains(x) {
                        record_after(w1.record(x), event, ts@, components@, c)
                    } else {
                        w1.record(x)
                    } by {
                    assert(regs@.take(i + 1) =~= regs@.take(i as int).push(o));
                    let t0 = regs@.take(i as int);
                    let t1 = regs@.take(i + 1);
                    assert(t1.contains(x) <==> (t0.contains(x) || x == o)) by {
                        if t1.contains(x) {
                            let w = choose|w: int| 0 <= w < t1.len() && t1[w] == x;
                            if w < i {
                                assert(t0[w] == x);
                            }
                        }
                        if t0.contains(x) {
                            let w = choose|w: int| 0 <= w < t0.len() && t0[w] == x;
                            assert(t1[w] == x);
                        }
                        if x == o {
                            assert(t1[i as int] == x);
                        }
                    }
                    if x != o {
                        assert(x.index != o.index);
                        assert(self.record(x) == w2.record(x));
                    } else {
                        assert(w2.record(o) == w1.record(o));
                    }
                }
            }
            i = i + 1;
        }
        proof {
            assert(regs@.take(i as int) =~= regs@);
            assert(w1.counter() == self.counter());
            assert forall|o: Entity|
                w_old.registered_view().contains(o) && #[trigger] ran(
                    w_old.record(o),
                    event,
                    ts@,
                    components@,
                    c,
                ) && w_old.record(o).unwrap().system.unwrap().despawn_self
                    implies self.commands.queued().contains(Command::UnregisterObserver(o)) by {
                let j = choose|j: int| 0 <= j < regs@.len() && regs@[j] == o;
                assert(record_in(w1.records_view(), regs@[j]) == w_old.record(o));
            }
            assert forall|o: Entity|
                w_old.registered_view().contains(o) && despawns_self(#[trigger] w_old.record(o))
                    && first_source(
                    w_old.record(o).unwrap().descriptor@,
                    event,
                    ts@,
                    components@,
                ) is Some implies self.record(o) is None && !self.is_alive(o) by {
                let j = choose|j: int| 0 <= j < regs@.len() && regs@[j] == o;
                assert(record_in(w1.records_view(), regs@[j]) == w_old.record(o));
            }
        }
    }
}

} // verus!
