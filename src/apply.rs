use vstd::prelude::*;

use crate::descriptor::ObserverDescriptor;
use crate::entity::Entity;
use crate::runner::{
    dispatched, grows_by_hooks, lemma_grows_refl, lemma_grows_trans, ran, record_after, triggers,
    unchanged,
};
use crate::world::{is_hook, Command, ObserverComponent, ObserverRunner, ObserverSystem, World};

verus! {

/// `w1` is `w0` after a record for `e` with the given parts was attached.
pub open spec fn inserted(
    w0: World,
    e: Entity,
    d: ObserverDescriptor,
    runner: ObserverRunner,
    system: Option<ObserverSystem>,
    w1: World,
) -> bool {
    &&& (w0.is_alive(e) ==> (w1.record(e) matches Some(r) && r.descriptor == d && r.runner
        == runner && r.system == system && r.last_event_id == 0))
    &&& (!w0.is_alive(e) ==> w1.record(e) == w0.record(e))
    &&& forall|x: Entity| x != e ==> #[trigger] w1.record(x) == w0.record(x)
    &&& forall|x: Entity| #[trigger] w1.is_alive(x) == w0.is_alive(x)
    &&& w1.registered_view() == w0.registered_view()
    &&& (w0.is_alive(e) && w0.record(e) is None ==> w1.commands.queued()
        == w0.commands.queued().push(Command::RegisterObserver(e)))
    &&& (!(w0.is_alive(e) && w0.record(e) is None) ==> w1.commands.queued()
        == w0.commands.queued())
}

/// `w1` is `w0` after command `c` was applied.
pub open spec fn applied(w0: World, c: Command, w1: World) -> bool {
    &&& w1.wf()
    &&& w1.commands.components == w0.commands.components
    &&& w1.commands.next_index() == w0.commands.next_index()
    &&& grows_by_hooks(w0.commands.queued(), w1.commands.queued())
    &&& (is_hook(c) ==> w1.commands.queued() == w0.commands.queued() && w1.records_view()
        == w0.records_view() && w1.alive_view() == w0.alive_view())
    &&& (!(c is Emit) ==> w1.log_view() == w0.log_view() && w1.counter() == w0.counter())
    &&& match c {
        Command::Spawn(e) => {
            &&& (e.index < w0.commands.next_index() ==> w1.is_alive(e))
            &&& forall|x: Entity| x != e ==> #[trigger] w1.record(x) == w0.record(x)
                && w1.is_alive(x) == w0.is_alive(x)
            &&& w1.record(e) == w0.record(e)
            &&& w1.registered_view() == w0.registered_view()
            &&& w1.commands.queued() == w0.commands.queued()
        },
        Command::Despawn(e) => {
            &&& w1.record(e) is None
            &&& !w1.is_alive(e)
            &&& forall|x: Entity| x != e ==> #[trigger] w1.record(x) == w0.record(x)
                && w1.is_alive(x) == w0.is_alive(x)
            &&& w1.registered_view() == w0.registered_view()
            &&& (w0.record(e) is Some ==> w1.commands.queued() == w0.commands.queued().push(
                Command::UnregisterObserver(e),
            ))
            &&& (w0.record(e) is None ==> w1.commands.queued() == w0.commands.queued())
        },
        Command::InsertObserver(e, comp) => inserted(
            w0,
            e,
            comp.descriptor,
            comp.runner,
            comp.system,
            w1,
        ),
        Command::BuildObserver(e, d, sys) => if sys.exclusive {
            unchanged(w0, w1)
        } else {
            inserted(w0, e, d, ObserverRunner::System, Some(sys), w1)
        },
        Command::RemoveObserver(e) => {
            &&& w1.record(e) is None
            &&& forall|x: Entity| x != e ==> #[trigger] w1.record(x) == w0.record(x)
            &&& forall|x: Entity| #[trigger] w1.is_alive(x) == w0.is_alive(x)
            &&& w1.registered_view() == w0.registered_view()
            &&& (w0.record(e) is Some ==> w1.commands.queued() == w0.commands.queued().push(
                Command::UnregisterObserver(e),
            ))
            &&& (w0.record(e) is None ==> w1.commands.queued() == w0.commands.queued())
        },
        Command::RegisterObserver(e) => {
            &&& (w0.record(e) is Some && !w0.registered_view().contains(e)
                ==> w1.registered_view() == w0.registered_view().push(e))
            &&& (!(w0.record(e) is Some && !w0.registered_view().contains(e))
                ==> w1.registered_view() == w0.registered_view())
        },
        Command::UnregisterObserver(e) => {
            &&& !w1.registered_view().contains(e)
            &&& forall|x: Entity| x != e ==> (#[trigger] w1.registered_view().contains(x)
                == w0.registered_view().contains(x))
        },
        Command::Emit(ev) => if w0.counter() < u64::MAX {
            &&& w1.counter() == w0.counter() + 1
            &&& w1.log_view() == w0.log_view() + dispatched(w0, ev)
            &&& w1.registered_view() == w0.registered_view()
            &&& forall|o: Entity|
                w0.registered_view().contains(o) && #[trigger] ran(
                    w0.record(o),
                    ev.event,
                    triggers(ev.entities@),
                    ev.components@,
                    w1.counter(),
                ) && w0.record(o).unwrap().system.unwrap().despawn_self
                    ==> w1.commands.queued().contains(Command::UnregisterObserver(o))
            &&& forall|o: Entity| #[trigger]
                w1.record(o) == if w0.registered_view().contains(o) {
                    record_after(
                        w0.record(o),
                        ev.event,
                        triggers(ev.entities@),
                        ev.components@,
                        w1.counter(),
                    )
                } else {
                    w0.record(o)
                }
        } else {
            unchanged(w0, w1)
        },
    }
}

/// `ws` are the worlds before, between and after the commands `cs`, applied
/// one after another.
pub open spec fn applied_in_order(ws: Seq<World>, cs: Seq<Command>) -> bool {
    &&& ws.len() == cs.len() + 1
    &&& forall|i: int| 0 <= i < cs.len() ==> applied(#[trigger] ws[i], cs[i], ws[i + 1])
}

/// `a` and `b` hold the same state, whatever their queues hold.
pub open spec fn same_but_queue(a: World, b: World) -> bool {
    &&& b.records_view() == a.records_view()
    &&& b.alive_view() == a.alive_view()
    &&& b.registered_view() == a.registered_view()
    &&& b.log_view() == a.log_view()
    &&& b.counter() == a.counter()
    &&& b.commands.components == a.commands.components
    &&& b.commands.next_index() == a.commands.next_index()
}

impl World {
    /// Makes the reserved entity `e` live; an index never handed out is ignored.
    pub fn spawn_entity(&mut self, e: Entity)
        requires
            old(self).wf(),
        ensures
            final(self).wf(),
            e.index < old(self).commands.next_index() ==> final(self).is_alive(e),
            forall|x: Entity| x != e ==> final(self).record(x) == old(self).record(x)
                && (final(self).is_alive(x) == old(self).is_alive(x)),
            final(self).record(e) == old(self).record(e),
            final(self).registered_view() == old(self).registered_view(),
            final(self).log_view() == old(self).log_view(),
            final(self).counter() == old(self).counter(),
            final(self).commands == old(self).commands,
    {
        if e.index >= self.commands.next_entity {
            return ;
        }
        let idx = e.index as usize;
        let ghost w0 = *self;
        while self.alive.len() <= idx
            invariant
                self.wf(),
                idx < self.commands.next_index(),
                self.commands == w0.commands,
                self.registered@ == w0.registered@,
                self.log@ == w0.log@,
                self.last_event_id == w0.last_event_id,
                self.records@.len() >= w0.records@.len(),
                forall|k: int| 0 <= k < w0.records@.len() ==> self.records@[k] == w0.records@[k]
                    && self.alive@[k] == w0.alive@[k],
                forall|k: int| w0.records@.len() <= k < self.records@.len() ==> self.records@[k]
                    is None && !self.alive@[k],
            decreases idx + 1 - self.alive@.len(),
        {
            self.alive.push(false);
            self.records.push(None);
        }
        self.alive.set(idx, true);
    }

    /// Attaches `comp` to the live entity `e`; a first attachment queues the
    /// index's update.
    pub fn insert_observer(&mut self, e: Entity, comp: ObserverComponent)
        requires
            old(self).wf(),
        ensures
            final(self).wf(),
            old(self).is_alive(e) ==> (final(self).record(e) matches Some(r) && r.descriptor
                == comp.descriptor && r.runner == comp.runner && r.system == comp.system
                && r.last_event_id == 0),
            !old(self).is_alive(e) ==> final(self).record(e) == old(self).record(e),
            forall|x: Entity| x != e ==> final(self).record(x) == old(self).record(x),
            forall|x: Entity| final(self).is_alive(x) == old(self).is_alive(x),
            final(self).registered_view() == old(self).registered_view(),
            final(self).log_view() == old(self).log_view(),
            final(self).counter() == old(self).counter(),
            final(self).commands.components == old(self).commands.components,
            final(self).commands.next_index() == old(self).commands.next_index(),
            old(self).is_alive(e) && old(self).record(e) is None ==> final(self).commands.queued()
                == old(self).commands.queued().push(Command::RegisterObserver(e)),
            !(old(self).is_alive(e) && old(self).record(e) is None) ==> final(self).commands.queued() == old(self).commands.queued(),
    {
        let idx = e.index as usize;
        if idx >= self.alive.len() || !self.alive[idx] {
            return ;
        }
        let mut comp = comp;
        comp.last_event_id = 0;
        let mut slot = Some(comp);
        self.records.set_and_swap(idx, &mut slot);
        if slot.is_none() {
            self.commands.add(Command::RegisterObserver(e));
        }
    }

    /// Detaches the observer record of `e`, if any, and queues the index's update.
    pub fn remove_observer(&mut self, e: Entity)
        requires
            old(self).wf(),
        ensures
            final(self).wf(),
            final(self).record(e) is None,
            forall|x: Entity| x != e ==> final(self).record(x) == old(self).record(x),
            forall|x: Entity| final(self).is_alive(x) == old(self).is_alive(x),
            final(self).registered_view() == old(self).registered_view(),
            final(self).log_view() == old(self).log_view(),
            final(self).counter() == old(self).counter(),
            final(self).commands.components == old(self).commands.components,
            final(self).commands.next_index() == old(self).commands.next_index(),
            old(self).record(e) is Some ==> final(self).commands.queued() == old(self).commands.queued().push(Command::UnregisterObserver(e)),
            old(self).record(e) is None ==> final(self).commands.queued() == old(self).commands.queued(),
    {
        let idx = e.index as usize;
        if idx >= self.records.len() {
            return ;
        }
        let mut slot: Option<ObserverComponent> = None;
        self.records.set_and_swap(idx, &mut slot);
        if slot.is_some() {
            self.commands.add(Command::UnregisterObserver(e));
        }
    }

    /// Adds `e` to the observer index when it holds a record and is not there yet.
    pub fn register_observer(&mut self, e: Entity)
        requires
            old(self).wf(),
        ensures
            final(self).wf(),
            old(self).record(e) is Some && !old(self).registered_view().contains(e) ==> final(self).registered_view() == old(self).registered_view().push(e),
            !(old(self).record(e) is Some && !old(self).registered_view().contains(e)) ==> final(self).registered_view() == old(self).registered_view(),
            final(self).records_view() == old(self).records_view(),
            final(self).alive_view() == old(self).alive_view(),
            final(self).log_view() == old(self).log_view(),
            final(self).counter() == old(self).counter(),
            final(self).commands == old(self).commands,
    {
        if self.has_observer(e) && !self.is_registered_observer(e) {
            self.registered.push(e);
            proof {
                assert forall|a: int, b: int|
                    0 <= a < b < self.registered@.len() implies self.registered@[a]
                    != self.registered@[b] by {
                    assert(self.registered@[a] == old(self).registered@[a]);
                    if b == self.registered@.len() - 1 {
                        if old(self).registered@[a] == e {
                            assert(old(self).registered@.contains(e));
                        }
                    } else {
                        assert(self.registered@[b] == old(self).registered@[b]);
                    }
                }
            }
        }
    }

    /// Removes `e` from the observer index.
    pub fn unregister_observer(&mut self, e: Entity)
        requires
            old(self).wf(),
        ensures
            final(self).wf(),
            !final(self).registered_view().contains(e),
            forall|x: Entity| x != e ==> (final(self).registered_view().contains(x)
                == old(self).registered_view().contains(x)),
            final(self).records_view() == old(self).records_view(),
            final(self).alive_view() == old(self).alive_view(),
            final(self).log_view() == old(self).log_view(),
            final(self).counter() == old(self).counter(),
            final(self).commands == old(self).commands,
    {
        let mut kept: Vec<Entity> = Vec::new();
        let mut i: usize = 0;
        while i < self.registered.len()
            invariant
                0 <= i <= self.registered@.len(),
                self.registered@ == old(self).registered@,
                self.registered@.no_duplicates(),
                !kept@.contains(e),
                kept@.no_duplicates(),
                forall|x: Entity| #[trigger] kept@.contains(x) <==> x != e && self.registered@.take(
                    i as int,
                ).contains(x),
            decreases self.registered@.len() - i,
        {
            let x = self.registered[i];
            proof {
                assert(self.registered@.take(i + 1) =~= self.registered@.take(i as int).push(x));
                assert(!self.registered@.take(i as int).contains(x)) by {
                    if self.registered@.take(i as int).contains(x) {
                        let w = choose|w: int| 0 <= w < i && self.registered@.take(i as int)[w] == x;
                        assert(self.registered@[w] == self.registered@[i as int]);
                    }
                }
            }
            let ghost k0 = kept@;
            let ghost t0 = self.registered@.take(i as int);
            proof {
                assert forall|y: Entity| k0.contains(y) <==> y != e && t0.contains(y) by {
                    assert(kept@.contains(y) <==> y != e && t0.contains(y));
                }
            }
            if x != e {
                kept.push(x);
                proof {
                    assert forall|y: Entity| kept@.contains(y) <==> (k0.contains(y) || y == x) by {
                        if kept@.contains(y) {
                            let w = choose|w: int| 0 <= w < kept@.len() && kept@[w] == y;
                            if w < k0.len() {
                                assert(k0[w] == y);
                            }
                        }
                        if k0.contains(y) {
                            let w = choose|w: int| 0 <= w < k0.len() && k0[w] == y;
                            assert(kept@[w] == y);
                        }
                        if y == x {
                            assert(kept@[k0.len() as int] == y);
                        }
                    }
                    assert forall|a: int, b: int| 0 <= a < b < kept@.len() implies kept@[a]
                        != kept@[b] by {
                        if b == k0.len() {
                            assert(kept@[a] == k0[a]);
                            assert(k0.contains(kept@[a]));
                        } else {
                            assert(kept@[a] == k0[a]);
                            assert(kept@[b] == k0[b]);
                        }
                    }
                }
            }
            proof {
                let t1 = self.registered@.take(i + 1);
                assert forall|y: Entity| t1.contains(y) <==> (t0.contains(y) || y == x) by {
                    if t1.contains(y) {
                        let w = choose|w: int| 0 <= w < t1.len() && t1[w] == y;
                        if w < i {
                            assert(t0[w] == y);
                        }
                    }
                    if t0.contains(y) {
                        let w = choose|w: int| 0 <= w < t0.len() && t0[w] == y;
                        assert(t1[w] == y);
                    }
                    if y == x {
                        assert(t1[i as int] == x);
                    }
                }
                assert forall|y: Entity| #[trigger] kept@.contains(y) <==> y != e && t1.contains(y) by {
                    assert(t1.contains(y) <==> (t0.contains(y) || y == x));
                    assert(k0.contains(y) <==> y != e && t0.contains(y));
                }
            }
            i = i + 1;
        }
        proof {
            assert(self.registered@.take(i as int) =~= self.registered@);
        }
        self.registered = kept;
    }

    /// Applies one deferred command. An emission that finds the counter at
    /// its largest value is dropped, as no fresh counter value is left for it.
    pub fn apply_command(&mut self, c: Command)
        requires
            old(self).wf(),
        ensures
            applied(*old(self), c, *final(self)),
    {
        let ghost q0 = self.commands.queued();
        proof {
            lemma_grows_refl(q0);
        }
        match c {
            Command::Spawn(e) => self.spawn_entity(e),
            Command::Despawn(e) => {
                let ghost w0 = *self;
                self.despawn(e);
                proof {
                    assert forall|x: Entity| x != e implies #[trigger] self.record(x) == w0.record(x)
                        && self.is_alive(x) == w0.is_alive(x) by {
                        assert(x.index != e.index);
                    }
                }
            },
            Command::InsertObserver(e, comp) => {
                self.insert_observer(e, comp);
                proof {
                    assert(self.commands.queued().subrange(0, q0.len() as int) =~= q0);
                }
            },
            Command::BuildObserver(e, descriptor, system) => {
                if !system.exclusive {
                    self.insert_observer(e, ObserverComponent::from(descriptor, system));
                    proof {
                        assert(self.commands.queued().subrange(0, q0.len() as int) =~= q0);
                    }
                }
            },
            Command::RemoveObserver(e) => {
                self.remove_observer(e);
                proof {
                    assert(self.commands.queued().subrange(0, q0.len() as int) =~= q0);
                }
            },
            Command::RegisterObserver(e) => {
                let ghost r0 = self.registered_view();
                self.register_observer(e);
                proof {
                    if self.registered_view() == r0.push(e) {
                        assert(self.registered_view()[r0.len() as int] == e);
                    }
                }
            },
            Command::UnregisterObserver(e) => self.unregister_observer(e),
            Command::Emit(ev) => {
                if self.last_event_id < u64::MAX {
                    self.dispatch(ev);
                } else {
                    proof {
                        lemma_grows_refl(q0);
                    }
                }
            },
        }
    }

    /// Applies every queued command in order, and then, in order, the
    /// lifecycle notifications that they queued, leaving the queue empty.
    pub fn flush(&mut self)
        requires
            old(self).wf(),
        ensures
            final(self).wf(),
            final(self).commands.queued().len() == 0,
            final(self).commands.components == old(self).commands.components,
            final(self).commands.next_index() == old(self).commands.next_index(),
            exists|ws: Seq<World>, hs: Seq<World>|
                {
                    &&& applied_in_order(ws, old(self).commands.queued())
                    &&& same_but_queue(*old(self), ws[0])
                    &&& applied_in_order(hs, ws.last().commands.queued())
                    &&& same_but_queue(ws.last(), hs[0])
                    &&& same_but_queue(hs.last(), *final(self))
                },
            old(self).commands.queued()[0] matches Command::Emit(ev) ==> (old(self).commands.queued().len() == 1 && old(self).counter() < u64::MAX ==> {
                &&& final(self).counter() == old(self).counter() + 1
                &&& final(self).log_view() == old(self).log_view() + dispatched(*old(self), ev)
                &&& forall|o: Entity| #[trigger]
                    final(self).record(o) == if old(self).registered_view().contains(o) {
                        record_after(
                            old(self).record(o),
                            ev.event,
                            triggers(ev.entities@),
                            ev.components@,
                            final(self).counter(),
                        )
                    } else {
                        old(self).record(o)
                    }
                &&& forall|o: Entity|
                    old(self).registered_view().contains(o) && #[trigger] ran(
                        old(self).record(o),
                        ev.event,
                        triggers(ev.entities@),
                        ev.components@,
                        final(self).counter(),
                    ) && old(self).record(o).unwrap().system.unwrap().despawn_self
                        ==> !final(self).registered_view().contains(o)
            }),
    {
        let ghost q = self.commands.queued();
        let mut pending = self.commands.take_queue();
        proof {
            lemma_grows_refl(self.commands.queued());
        }
        let ghost empty = self.commands.queued();
        let ghost mut ws: Seq<World> = seq![*self];
        let ghost mut k: int = 0;
        while pending.len() > 0
            invariant
                self.wf(),
                empty.len() == 0,
                grows_by_hooks(empty, self.commands.queued()),
                self.commands.components == old(self).commands.components,
                self.commands.next_index() == old(self).commands.next_index(),
                q == old(self).commands.queued(),
                0 <= k <= q.len(),
                pending@ == q.subrange(k, q.len() as int),
                ws.len() == k + 1,
                forall|i: int| 0 <= i < k ==> applied(#[trigger] ws[i], q[i], ws[i + 1]),
                ws.last() == *self,
                same_but_queue(*old(self), ws[0]),
            decreases pending@.len(),
        {
            let ghost p0 = pending@;
            let c = pending.remove(0);
            let ghost q1 = self.commands.queued();
            let ghost w0 = *self;
            proof {
                assert(c == q[k]) by {
                    assert(p0[0] == q[k]);
                }
                assert(pending@ =~= q.subrange(k + 1, q.len() as int));
            }
            self.apply_command(c);
            proof {
                lemma_grows_trans(empty, q1, self.commands.queued());
                let ws0 = ws;
                ws = ws.push(*self);
                assert forall|i: int| 0 <= i < k + 1 implies applied(
                    #[trigger] ws[i],
                    q[i],
                    ws[i + 1],
                ) by {
                    if i < k {
                        assert(ws[i] == ws0[i] && ws[i + 1] == ws0[i + 1]);
                    } else {
                        assert(ws[i] == w0);
                    }
                }
                k = k + 1;
            }
        }
        proof {
            assert(q.len() == k) by {
                assert(pending@.len() == 0);
            }
            assert(applied_in_order(ws, q));
        }
        let ghost w_mid = *self;
        let ghost hq = self.commands.queued();
        let mut hooks = self.commands.take_queue();
        proof {
            assert forall|i: int| 0 <= i < hooks@.len() implies is_hook(#[trigger] hooks@[i]) by {}
        }
        let ghost mut hs: Seq<World> = seq![*self];
        let ghost mut m: int = 0;
        while hooks.len() > 0
            invariant
                self.wf(),
                self.commands.queued().len() == 0,
                forall|i: int| 0 <= i < hooks@.len() ==> is_hook(#[trigger] hooks@[i]),
                self.commands.components == old(self).commands.components,
                self.commands.next_index() == old(self).commands.next_index(),
                hq == ws.last().commands.queued(),
                0 <= m <= hq.len(),
                hooks@ == hq.subrange(m, hq.len() as int),
                hs.len() == m + 1,
                forall|i: int| 0 <= i < m ==> applied(#[trigger] hs[i], hq[i], hs[i + 1]),
                hs.last() == *self,
                same_but_queue(ws.last(), hs[0]),
                self.log_view() == w_mid.log_view(),
                self.counter() == w_mid.counter(),
                self.records_view() == w_mid.records_view(),
                forall|o: Entity|
                    w_mid.record(o) is None && #[trigger] hq.take(m).contains(
                        Command::UnregisterObserver(o),
                    ) ==> !self.registered_view().contains(o),
            decreases hooks@.len(),
        {
            let ghost h0 = hooks@;
            let c = hooks.remove(0);
            let ghost w0 = *self;
            proof {
                assert(is_hook(h0[0]));
                assert(c == hq[m]) by {
                    assert(h0[0] == hq[m]);
                }
                assert(hooks@ =~= hq.subrange(m + 1, hq.len() as int));
                assert forall|i: int| 0 <= i < hooks@.len() implies is_hook(#[trigger] hooks@[i]) by {
                    assert(hooks@[i] == h0[i + 1]);
                }
            }
            self.apply_command(c);
            proof {
                assert forall|o: Entity|
                    w_mid.record(o) is None && #[trigger] hq.take(m + 1).contains(
                        Command::UnregisterObserver(o),
                    ) implies !self.registered_view().contains(o) by {
                    let t0 = hq.take(m);
                    let t1 = hq.take(m + 1);
                    let u = Command::UnregisterObserver(o);
                    let w = choose|w: int| 0 <= w < t1.len() && t1[w] == u;
                    if w < m {
                        assert(t0[w] == u);
                        assert(t0.contains(u));
                    } else {
                        assert(c == u);
                    }
                    assert(self.record(o) == w_mid.record(o));
                    assert(w0.record(o) == w_mid.record(o));
                }
                let hs0 = hs;
                hs = hs.push(*self);
                assert forall|i: int| 0 <= i < m + 1 implies applied(
                    #[trigger] hs[i],
                    hq[i],
                    hs[i + 1],
                ) by {
                    if i < m {
                        assert(hs[i] == hs0[i] && hs[i + 1] == hs0[i + 1]);
                    } else {
                        assert(hs[i] == w0);
                    }
                }
                m = m + 1;
            }
        }
        proof {
            assert(hq.len() == m) by {
                assert(hooks@.len() == 0);
            }
            assert(applied_in_order(hs, hq));
            if q.len() == 1 {
                assert(applied(ws[0], q[0], ws[1]));
                assert(ws.last() == ws[1]);
                match q[0] {
                    Command::Emit(ev) => {
                        assert(dispatched(ws[0], ev) == dispatched(*old(self), ev));
                        assert forall|o: Entity| #[trigger] self.record(o) == ws[1].record(o) by {}
                        assert forall|o: Entity| #[trigger] ws[0].record(o) == old(self).record(o) by {}
                        assert(hq.take(m) =~= hq);
                        if old(self).counter() < u64::MAX {
                            assert forall|o: Entity|
                                old(self).registered_view().contains(o) && #[trigger] ran(
                                    old(self).record(o),
                                    ev.event,
                                    triggers(ev.entities@),
                                    ev.components@,
                                    self.counter(),
                                ) && old(self).record(o).unwrap().system.unwrap().despawn_self
                                implies !self.registered_view().contains(o) by {
                                assert(ws[0].registered_view().contains(o));
                                assert(ws[1].counter() == self.counter());
                                assert(ran(ws[0].record(o), ev.event, triggers(ev.entities@), ev.components@, ws[1].counter()));
                                assert(ws[1].record(o) == record_after(
                                    ws[0].record(o),
                                    ev.event,
                                    triggers(ev.entities@),
                                    ev.components@,
                                    ws[1].counter(),
                                ));
                                assert(ws[1].record(o) is None);
                                assert(w_mid.record(o) is None);
                                assert(hq.contains(Command::UnregisterObserver(o)));
                            }
                        }
                    },
                    _ => {},
                }
            }
        }
    }
}

} // verus!
