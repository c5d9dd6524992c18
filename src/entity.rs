use vstd::prelude::*;

verus! {

/// Identifier of a registered component or event kind.
pub type ComponentId = u64;

/// The identifier that the registry gives to the "no event" kind.
pub const NO_EVENT: ComponentId = 0;

/// The type key of the "no event" kind, registered by every fresh registry.
pub const NO_EVENT_TYPE: u64 = 0;

/// Index of the placeholder entity, which never names a stored entity.
pub const PLACEHOLDER_INDEX: u32 = 0xffff_ffff;

/// Opaque identifier of an entity of the store.
#[derive(Clone, Copy, Debug, PartialEq, Eq, Structural)]
pub struct Entity {
    pub index: u32,
}

impl Entity {
    /// The placeholder entity, "no entity".
    pub open spec fn spec_placeholder() -> Entity {
        Entity { index: PLACEHOLDER_INDEX }
    }

    pub fn placeholder() -> (r: Entity)
        ensures
            r == Entity::spec_placeholder(),
    {
        Entity { index: PLACEHOLDER_INDEX }
    }

    pub fn from_index(index: u32) -> (r: Entity)
        ensures
            r.index == index,
    {
        Entity { index }
    }

    pub fn is_placeholder(&self) -> (r: bool)
        ensures
            r == (*self == Entity::spec_placeholder()),
    {
        self.index == PLACEHOLDER_INDEX
    }
}

/// Registry from type keys (stable identities of static types) to component
/// identifiers; the identifier of a key is its position in registration order.
#[derive(Debug)]
pub struct Components {
    pub type_keys: Vec<u64>,
}

/// Position of the first occurrence of `key` in `keys`, if any.
pub open spec fn index_of(keys: Seq<u64>, key: u64) -> Option<int>
    decreases keys.len(),
{
    if keys.len() == 0 {
        None
    } else {
        match index_of(keys.drop_last(), key) {
            Some(i) => Some(i),
            None => if keys.last() == key {
                Some(keys.len() - 1)
            } else {
                None
            },
        }
    }
}

pub proof fn lemma_index_of(keys: Seq<u64>, key: u64)
    ensures
        index_of(keys, key) is Some <==> keys.contains(key),
        index_of(keys, key) matches Some(i) ==> 0 <= i < keys.len() && keys[i] == key
            && forall|j: int| 0 <= j < i ==> keys[j] != key,
    decreases keys.len(),
{
    if keys.len() > 0 {
        lemma_index_of(keys.drop_last(), key);
        if keys.contains(key) && !keys.drop_last().contains(key) {
            let w = choose|w: int| 0 <= w < keys.len() && keys[w] == key;
            if w < keys.len() - 1 {
                assert(keys.drop_last()[w] == key);
            }
        }
        if keys.drop_last().contains(key) {
            let w = choose|w: int| 0 <= w < keys.len() - 1 && keys.drop_last()[w] == key;
            assert(keys[w] == key);
        }
        assert forall|j: int| 0 <= j < keys.len() - 1 implies keys[j] == keys.drop_last()[j] by {}
        if !keys.drop_last().contains(key) {
            assert forall|j: int| 0 <= j < keys.len() - 1 implies keys[j] != key by {
                assert(keys.drop_last()[j] == keys[j]);
            }
        }
    }
}

impl Components {
    pub open spec fn keys(&self) -> Seq<u64> {
        self.type_keys@
    }

    /// Whether the type with `key` has an entry.
    pub open spec fn is_registered(&self, key: u64) -> bool {
        self.keys().contains(key)
    }

    /// The identifier registered for `key`.
    pub open spec fn id_of(&self, key: u64) -> ComponentId
        recommends
            self.is_registered(key),
    {
        match index_of(self.keys(), key) {
            Some(i) => i as ComponentId,
            None => 0,
        }
    }

    pub open spec fn wf(&self) -> bool {
        &&& self.keys().len() > 0
        &&& self.keys()[0] == NO_EVENT_TYPE
        &&& self.keys().len() < u64::MAX
    }

    /// A registry that holds the "no event" kind alone.
    pub fn new() -> (r: Components)
        ensures
            r.wf(),
            r.keys() == seq![NO_EVENT_TYPE],
    {
        let mut type_keys: Vec<u64> = Vec::new();
        type_keys.push(NO_EVENT_TYPE);
        Components { type_keys }
    }

    /// Registers `key` if it has no entry yet, and returns its identifier.
    pub fn register(&mut self, key: u64) -> (r: ComponentId)
        requires
            old(self).wf(),
            old(self).keys().len() < usize::MAX - 1,
            old(self).keys().len() < u64::MAX - 1,
        ensures
            final(self).wf(),
            final(self).is_registered(key),
            old(self).is_registered(key) ==> final(self).keys() == old(self).keys(),
            !old(self).is_registered(key) ==> final(self).keys() == old(self).keys().push(key),
            r == final(self).id_of(key),
            forall|k: u64| old(self).is_registered(k) ==> final(self).is_registered(k)
                && final(self).id_of(k) == old(self).id_of(k),
    {
        match self.get_id(key) {
            Some(id) => id,
            None => {
                let ghost before = self.keys();
                let id = self.type_keys.len() as u64;
                self.type_keys.push(key);
                proof {
                    assert(self.keys().drop_last() == before);
                    lemma_index_of(before, key);
                    assert forall|k: u64| before.contains(k) implies index_of(self.keys(), k)
                        == index_of(before, k) by {
                        lemma_index_of(before, k);
                    }
                    assert(self.keys().contains(key)) by {
                        assert(self.keys()[before.len() as int] == key);
                    }
                }
                id
            },
        }
    }

    /// The identifier of `key`, or `None` if the type was never registered.
    pub fn get_id(&self, key: u64) -> (r: Option<ComponentId>)
        requires
            self.wf(),
        ensures
            r is Some <==> self.is_registered(key),
            r matches Some(id) ==> id == self.id_of(key),
    {
        let mut i: usize = 0;
        while i < self.type_keys.len()
            invariant
                0 <= i <= self.type_keys@.len(),
                self.wf(),
                forall|j: int| 0 <= j < i ==> self.type_keys@[j] != key,
            decreases self.type_keys@.len() - i,
        {
            if self.type_keys[i] == key {
                proof {
                    lemma_index_of(self.keys(), key);
                    assert(self.keys().contains(key)) by { assert(self.keys()[i as int] == key); }
                }
                return Some(i as u64);
            }
            i = i + 1;
        }
        proof {
            lemma_index_of(self.keys(), key);
        }
        None
    }

    /// Identifiers of all `keys`, in order, or `None` if any is unregistered.
    pub fn get_ids(&self, keys: &Vec<u64>) -> (r: Option<Vec<ComponentId>>)
        requires
            self.wf(),
        ensures
            r is Some <==> forall|i: int| 0 <= i < keys@.len() ==> self.is_registered(keys@[i]),
            r matches Some(ids) ==> ids@ == keys@.map_values(|k: u64| self.id_of(k)),
    {
        let mut ids: Vec<ComponentId> = Vec::new();
        let mut i: usize = 0;
        while i < keys.len()
            invariant
                0 <= i <= keys@.len(),
                self.wf(),
                forall|j: int| 0 <= j < i ==> self.is_registered(keys@[j]),
                ids@ == keys@.take(i as int).map_values(|k: u64| self.id_of(k)),
            decreases keys@.len() - i,
        {
            match self.get_id(keys[i]) {
                Some(id) => {
                    ids.push(id);
                    proof {
                        assert(keys@.take(i + 1) == keys@.take(i as int).push(keys@[i as int]));
                    }
                },
                None => {
                    return None;
                },
            }
            i = i + 1;
        }
        proof {
            assert(keys@.take(i as int) == keys@);
        }
        Some(ids)
    }
}

} // verus!
