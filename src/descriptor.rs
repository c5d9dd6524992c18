use vstd::prelude::*;

use crate::entity::{ComponentId, Entity};

verus! {

/// Match criteria of an observer. An empty set means "any".
#[derive(Debug)]
pub struct ObserverDescriptor {
    pub events: Vec<ComponentId>,
    pub components: Vec<ComponentId>,
    pub sources: Vec<Entity>,
}

/// The three criteria sets of a descriptor, as sequences.
pub struct DescriptorView {
    pub events: Seq<ComponentId>,
    pub components: Seq<ComponentId>,
    pub sources: Seq<Entity>,
}

impl View for ObserverDescriptor {
    type V = DescriptorView;

    open spec fn view(&self) -> DescriptorView {
        DescriptorView {
            events: self.events@,
            components: self.components@,
            sources: self.sources@,
        }
    }
}

/// Whether an observer with criteria `d` reacts to event `event` raised with
/// source entity `source` and target components `comps`.
pub open spec fn desc_matches(
    d: DescriptorView,
    event: ComponentId,
    source: Entity,
    comps: Seq<ComponentId>,
) -> bool {
    &&& (d.events.len() == 0 || d.events.contains(event))
    &&& (d.sources.len() == 0 || d.sources.contains(source))
    &&& (d.components.len() == 0 || exists|i: int|
        0 <= i < comps.len() && #[trigger] d.components.contains(comps[i]))
}

/// Whether all three criteria sets are empty: the observer reacts to everything.
pub open spec fn is_catch_all(d: DescriptorView) -> bool {
    d.events.len() == 0 && d.components.len() == 0 && d.sources.len() == 0
}

fn contains_id(v: &Vec<ComponentId>, x: ComponentId) -> (r: bool)
    ensures
        r == v@.contains(x),
{
    let mut i: usize = 0;
    while i < v.len()
        invariant
            0 <= i <= v@.len(),
            forall|j: int| 0 <= j < i ==> v@[j] != x,
        decreases v@.len() - i,
    {
        if v[i] == x {
            assert(v@[i as int] == x);
            return true;
        }
        i = i + 1;
    }
    false
}

fn contains_entity(v: &Vec<Entity>, x: Entity) -> (r: bool)
    ensures
        r == v@.contains(x),
{
    let mut i: usize = 0;
    while i < v.len()
        invariant
            0 <= i <= v@.len(),
            forall|j: int| 0 <= j < i ==> v@[j] != x,
        decreases v@.len() - i,
    {
        if v[i] == x {
            assert(v@[i as int] == x);
            return true;
        }
        i = i + 1;
    }
    false
}

fn copy_ids(v: &Vec<ComponentId>) -> (r: Vec<ComponentId>)
    ensures
        r@ == v@,
{
    let mut r: Vec<ComponentId> = Vec::new();
    let mut i: usize = 0;
    while i < v.len()
        invariant
            0 <= i <= v@.len(),
            r@ == v@.take(i as int),
        decreases v@.len() - i,
    {
        r.push(v[i]);
        assert(v@.take(i + 1) == v@.take(i as int).push(v@[i as int]));
        i = i + 1;
    }
    assert(v@.take(i as int) == v@);
    r
}

pub(crate) fn copy_entities(v: &Vec<Entity>) -> (r: Vec<Entity>)
    ensures
        r@ == v@,
{
    let mut r: Vec<Entity> = Vec::new();
    let mut i: usize = 0;
    while i < v.len()
        invariant
            0 <= i <= v@.len(),
            r@ == v@.take(i as int),
        decreases v@.len() - i,
    {
        r.push(v[i]);
        assert(v@.take(i + 1) == v@.take(i as int).push(v@[i as int]));
        i = i + 1;
    }
    assert(v@.take(i as int) == v@);
    r
}

impl ObserverDescriptor {
    /// Criteria with all three sets empty.
    pub fn catch_all() -> (r: ObserverDescriptor)
        ensures
            is_catch_all(r@),
    {
        ObserverDescriptor { events: Vec::new(), components: Vec::new(), sources: Vec::new() }
    }

    /// A copy with the same three sets.
    pub fn duplicate(&self) -> (r: ObserverDescriptor)
        ensures
            r@ == self@,
    {
        ObserverDescriptor {
            events: copy_ids(&self.events),
            components: copy_ids(&self.components),
            sources: copy_entities(&self.sources),
        }
    }

    /// Whether these criteria match `event` raised with `source` and `comps`.
    pub fn matches(&self, event: ComponentId, source: Entity, comps: &Vec<ComponentId>) -> (r:
        bool)
        ensures
            r == desc_matches(self@, event, source, comps@),
    {
        if self.events.len() != 0 && !contains_id(&self.events, event) {
            return false;
        }
        if self.sources.len() != 0 && !contains_entity(&self.sources, source) {
            return false;
        }
        if self.components.len() == 0 {
            return true;
        }
        let mut i: usize = 0;
        while i < comps.len()
            invariant
                0 <= i <= comps@.len(),
                forall|j: int| 0 <= j < i ==> !self.components@.contains(comps@[j]),
                self.events@.len() == 0 || self.events@.contains(event),
                self.sources@.len() == 0 || self.sources@.contains(source),
            decreases comps@.len() - i,
        {
            if contains_id(&self.components, comps[i]) {
                assert(self.components@.contains(comps@[i as int]));
                return true;
            }
            i = i + 1;
        }
        false
    }
}

} // verus!
