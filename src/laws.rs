use vstd::prelude::*;

use crate::descriptor::{desc_matches, is_catch_all, DescriptorView};
use crate::entity::{ComponentId, Entity};
use crate::runner::{dispatched, emission_invocations, first_source, observer_invocations, raw_invocations, triggers};
use crate::world::{record_in, EmitEcsEvent, Invocation, ObserverComponent, ObserverRunner, World};

verus! {

/// How many runs of `s` belong to observer `o`.
pub open spec fn runs_of(s: Seq<Invocation>, o: Entity) -> nat
    decreases s.len(),
{
    if s.len() == 0 {
        0
    } else {
        runs_of(s.drop_last(), o) + if s.last().observer == o {
            1nat
        } else {
            0nat
        }
    }
}

proof fn lemma_runs_of_small(i: Invocation, x: Entity)
    ensures
        runs_of(Seq::<Invocation>::empty(), x) == 0,
        runs_of(seq![i], x) == if i.observer == x { 1nat } else { 0nat },
{
    assert(seq![i].drop_last() =~= Seq::<Invocation>::empty());
    reveal_with_fuel(runs_of, 2);
}

proof fn lemma_runs_of_add(a: Seq<Invocation>, b: Seq<Invocation>, o: Entity)
    ensures
        runs_of(a + b, o) == runs_of(a, o) + runs_of(b, o),
    decreases b.len(),
{
    if b.len() == 0 {
        assert(a + b =~= a);
    } else {
        assert((a + b).drop_last() =~= a + b.drop_last());
        lemma_runs_of_add(a, b.drop_last(), o);
    }
}

proof fn lemma_raw_runs(
    o: Entity,
    d: DescriptorView,
    event: ComponentId,
    ts: Seq<Entity>,
    comps: Seq<ComponentId>,
    payload: u64,
    x: Entity,
)
    ensures
        x != o ==> runs_of(raw_invocations(o, d, event, ts, comps, payload), x) == 0,
        (forall|s: Entity| !desc_matches(d, event, s, comps)) ==> raw_invocations(
            o,
            d,
            event,
            ts,
            comps,
            payload,
        ).len() == 0,
    decreases ts.len(),
{
    if ts.len() > 0 {
        lemma_raw_runs(o, d, event, ts.drop_last(), comps, payload, x);
        let prev = raw_invocations(o, d, event, ts.drop_last(), comps, payload);
        let last = if desc_matches(d, event, ts.last(), comps) {
            seq![Invocation { observer: o, event, source: ts.last(), payload }]
        } else {
            seq![]
        };
        lemma_runs_of_add(prev, last, x);
        lemma_runs_of_small(Invocation { observer: o, event, source: ts.last(), payload }, x);
        assert(last =~= seq![] || last =~= seq![Invocation { observer: o, event, source: ts.last(), payload }]);
    }
}

proof fn lemma_first_source_none(
    d: DescriptorView,
    event: ComponentId,
    ts: Seq<Entity>,
    comps: Seq<ComponentId>,
)
    requires
        forall|s: Entity| !desc_matches(d, event, s, comps),
    ensures
        first_source(d, event, ts, comps) is None,
    decreases ts.len(),
{
    if ts.len() > 0 {
        lemma_first_source_none(d, event, ts.drop_last(), comps);
    }
}

proof fn lemma_first_source_catch_all(
    d: DescriptorView,
    event: ComponentId,
    ts: Seq<Entity>,
    comps: Seq<ComponentId>,
    k: int,
)
    requires
        is_catch_all(d),
        0 <= k < ts.len(),
        ts[k] != Entity::spec_placeholder(),
    ensures
        first_source(d, event, ts, comps) is Some,
    decreases ts.len(),
{
    if k < ts.len() - 1 {
        assert(ts.drop_last()[k] == ts[k]);
        lemma_first_source_catch_all(d, event, ts.drop_last(), comps, k);
    }
}

proof fn lemma_observer_runs(
    rec: Option<ObserverComponent>,
    o: Entity,
    event: ComponentId,
    ts: Seq<Entity>,
    comps: Seq<ComponentId>,
    payload: u64,
    counter: u64,
    x: Entity,
)
    ensures
        x != o ==> runs_of(observer_invocations(rec, o, event, ts, comps, payload, counter), x)
            == 0,
        (rec matches Some(r) && forall|s: Entity| !desc_matches(r.descriptor@, event, s, comps))
            ==> observer_invocations(rec, o, event, ts, comps, payload, counter).len() == 0,
        (rec matches Some(r) && r.runner == ObserverRunner::System && r.system is Some
            && r.last_event_id != counter && first_source(r.descriptor@, event, ts, comps) is Some)
            ==> runs_of(observer_invocations(rec, o, event, ts, comps, payload, counter), o) == 1,
{
    lemma_runs_of_small(Invocation { observer: o, event, source: o, payload }, x);
    match rec {
        None => {
            assert(observer_invocations(rec, o, event, ts, comps, payload, counter) =~= Seq::<Invocation>::empty());
        },
        Some(r) => {
            lemma_raw_runs(o, r.descriptor@, event, ts, comps, payload, x);
            if forall|s: Entity| !desc_matches(r.descriptor@, event, s, comps) {
                lemma_first_source_none(r.descriptor@, event, ts, comps);
            }
            let s = observer_invocations(rec, o, event, ts, comps, payload, counter);
            match first_source(r.descriptor@, event, ts, comps) {
                Some(src) => {
                    lemma_runs_of_small(Invocation { observer: o, event, source: src, payload }, x);
                    lemma_runs_of_small(Invocation { observer: o, event, source: src, payload }, o);
                },
                None => {},
            }
            if r.runner == ObserverRunner::System {
                assert(s =~= Seq::<Invocation>::empty() || exists|src: Entity| s =~= seq![Invocation { observer: o, event, source: src, payload }]);
            }
        },
    }
}

proof fn lemma_emission_runs(
    records: Seq<Option<ObserverComponent>>,
    regs: Seq<Entity>,
    event: ComponentId,
    ts: Seq<Entity>,
    comps: Seq<ComponentId>,
    payload: u64,
    counter: u64,
    o: Entity,
)
    requires
        regs.no_duplicates(),
    ensures
        runs_of(emission_invocations(records, regs, event, ts, comps, payload, counter), o) == if regs.contains(o) {
            runs_of(observer_invocations(record_in(records, o), o, event, ts, comps, payload, counter), o)
        } else {
            0
        },
    decreases regs.len(),
{
    if regs.len() > 0 {
        let init = regs.drop_last();
        assert(init.no_duplicates()) by {
            assert forall|a: int, b: int| 0 <= a < b < init.len() implies init[a] != init[b] by {
                assert(init[a] == regs[a] && init[b] == regs[b]);
            }
        }
        lemma_emission_runs(records, init, event, ts, comps, payload, counter, o);
        lemma_runs_of_add(
            emission_invocations(records, init, event, ts, comps, payload, counter),
            observer_invocations(record_in(records, regs.last()), regs.last(), event, ts, comps, payload, counter),
            o,
        );
        lemma_observer_runs(record_in(records, regs.last()), regs.last(), event, ts, comps, payload, counter, o);
        if regs.last() == o && init.contains(o) {
            let w = choose|w: int| 0 <= w < init.len() && init[w] == o;
            assert(regs[w] == regs[regs.len() - 1]);
        }
        assert(regs.contains(o) <==> init.contains(o) || regs.last() == o) by {
            if regs.contains(o) {
                let w = choose|w: int| 0 <= w < regs.len() && regs[w] == o;
                if w < regs.len() - 1 {
                    assert(init[w] == o);
                }
            }
            if init.contains(o) {
                let w = choose|w: int| 0 <= w < init.len() && init[w] == o;
                assert(regs[w] == o);
            }
            if regs.last() == o {
                assert(regs[regs.len() - 1] == o);
            }
        }
    }
}

/// An observer whose event set is non-empty and lacks the emitted kind does
/// not run for that emission.
pub proof fn lemma_unlisted_event_never_fires(w: World, ev: EmitEcsEvent, o: Entity)
    requires
        w.wf(),
        w.record(o) matches Some(r) && r.descriptor@.events.len() > 0
            && !r.descriptor@.events.contains(ev.event),
    ensures
        runs_of(dispatched(w, ev), o) == 0,
{
    let r = w.record(o).unwrap();
    assert forall|s: Entity| !desc_matches(r.descriptor@, ev.event, s, ev.components@) by {}
    lemma_emission_runs(
        w.records_view(),
        w.registered_view(),
        ev.event,
        triggers(ev.entities@),
        ev.components@,
        ev.data,
        (w.counter() + 1) as u64,
        o,
    );
    lemma_observer_runs(
        w.record(o),
        o,
        ev.event,
        triggers(ev.entities@),
        ev.components@,
        ev.data,
        (w.counter() + 1) as u64,
        o,
    );
    let s = observer_invocations(
        w.record(o),
        o,
        ev.event,
        triggers(ev.entities@),
        ev.components@,
        ev.data,
        (w.counter() + 1) as u64,
    );
    assert(s.len() == 0);
}

/// A callback observer in the index that matches an emission through at
/// least one real target runs exactly once for it, however many targets or
/// component kinds it matches through.
pub proof fn lemma_matching_observer_fires_once(w: World, ev: EmitEcsEvent, o: Entity)
    requires
        w.wf(),
        w.counter() < u64::MAX,
        w.registered_view().contains(o),
        w.record(o) matches Some(r) && r.runner == ObserverRunner::System && r.system is Some
            && first_source(r.descriptor@, ev.event, triggers(ev.entities@), ev.components@) is Some,
    ensures
        runs_of(dispatched(w, ev), o) == 1,
{
    let c = (w.counter() + 1) as u64;
    lemma_emission_runs(
        w.records_view(),
        w.registered_view(),
        ev.event,
        triggers(ev.entities@),
        ev.components@,
        ev.data,
        c,
        o,
    );
    assert(w.records_view()[o.index as int] is Some);
    lemma_observer_runs(w.record(o), o, ev.event, triggers(ev.entities@), ev.components@, ev.data, c, o);
}

/// A catch-all callback observer in the index runs exactly once for every
/// emission that targets at least one real entity.
pub proof fn lemma_catch_all_fires_once(w: World, ev: EmitEcsEvent, o: Entity, k: int)
    requires
        w.wf(),
        w.counter() < u64::MAX,
        w.registered_view().contains(o),
        w.record(o) matches Some(r) && r.runner == ObserverRunner::System && r.system is Some
            && is_catch_all(r.descriptor@),
        0 <= k < ev.entities@.len(),
        ev.entities@[k] != Entity::spec_placeholder(),
    ensures
        runs_of(dispatched(w, ev), o) == 1,
{
    let r = w.record(o).unwrap();
    lemma_first_source_catch_all(r.descriptor@, ev.event, triggers(ev.entities@), ev.components@, k);
    lemma_matching_observer_fires_once(w, ev, o);
}

/// An observer that is not in the index does not run, whatever is emitted.
pub proof fn lemma_unregistered_never_fires(w: World, ev: EmitEcsEvent, o: Entity)
    requires
        w.wf(),
        !w.registered_view().contains(o),
    ensures
        runs_of(dispatched(w, ev), o) == 0,
{
    lemma_emission_runs(
        w.records_view(),
        w.registered_view(),
        ev.event,
        triggers(ev.entities@),
        ev.components@,
        ev.data,
        (w.counter() + 1) as u64,
        o,
    );
}

/// Detaching stops an observer: before it leaves the index it runs for a
/// matching emission; once the index has dropped it, it no longer runs.
pub proof fn lemma_detach_stops_firing(before: World, after: World, ev: EmitEcsEvent, o: Entity)
    requires
        before.wf(),
        before.counter() < u64::MAX,
        before.registered_view().contains(o),
        before.record(o) matches Some(r) && r.runner == ObserverRunner::System && r.system is Some
            && first_source(r.descriptor@, ev.event, triggers(ev.entities@), ev.components@) is Some,
        after.wf(),
        !after.registered_view().contains(o),
    ensures
        runs_of(dispatched(before, ev), o) == 1,
        runs_of(dispatched(after, ev), o) == 0,
{
    lemma_matching_observer_fires_once(before, ev, o);
    lemma_unregistered_never_fires(after, ev, o);
}

} // verus!
