//! The identity table: stable, generation-checked entity handles, each
//! pointing at the entity's current place in archetype storage.
use slotmapd::{DefaultKey, HopSlotMap, Key, KeyData};
use vstd::prelude::*;

verus! {

/// Bit that marks an occupied slot version in a raw handle; every live handle
/// carries it.
pub const OCCUPIED_BIT: u64 = 0x1_0000_0000;

/// Largest number of entities the table can hold at once.
pub const MAX_ENTITIES: usize = 4294967294;

/// The canonical form of a raw handle: the form every handle issued by the
/// identity table has.
pub open spec fn canonical(raw: u64) -> u64 {
    raw | OCCUPIED_BIT
}

/// A handle to an entity: stable while the entity lives, never equal to the
/// handle of an entity alive at the same time.
#[derive(Clone, Copy, PartialEq, Eq, Hash, Debug)]
pub struct EntityID {
    raw: u64,
}

impl EntityID {
    /// The identity-table key this handle denotes.
    pub closed spec fn view(&self) -> u64 {
        canonical(self.raw)
    }

    /// The handle as one integer.
    pub fn to_raw(self) -> (r: u64)
        ensures
            r == self.to_raw_spec(),
            canonical(r) == self@,
    {
        self.raw
    }

    /// A handle from an integer made by `to_raw`.
    pub fn from_raw(raw: u64) -> (r: EntityID)
        ensures
            r@ == canonical(raw),
            r.to_raw_spec() == raw,
    {
        EntityID { raw }
    }

    pub closed spec fn to_raw_spec(&self) -> u64 {
        self.raw
    }

    /// Handles with the same raw value are the same handle.
    pub proof fn lemma_raw_injective(a: EntityID, b: EntityID)
        requires
            a.to_raw_spec() == b.to_raw_spec(),
        ensures
            a == b,
    {
    }
}

/// The contents of a table that holds no entity.
pub open spec fn empty_slots() -> Map<u64, EntityInfo> {
    Map::empty()
}

/// Where an entity lives: its archetype and its index inside it.
#[derive(Clone, Copy, PartialEq, Eq, Structural, Debug)]
pub struct EntityInfo {
    pub archetype_id: u32,
    pub in_archetype_id: u32,
}

/// Generational slot map from raw entity handles to entity locations.
#[verifier::external_body]
pub struct IdentityTable {
    slots: HopSlotMap<DefaultKey, EntityInfo>,
}

/// The live entries of the table, keyed by raw handle.
pub uninterp spec fn slots_of(t: IdentityTable) -> Map<u64, EntityInfo>;

impl IdentityTable {
    /// Relies on `HopSlotMap::new`: an empty map.
    #[verifier::external_body]
    pub(crate) fn new() -> (r: IdentityTable)
        ensures
            slots_of(r) == empty_slots(),
    {
        IdentityTable { slots: HopSlotMap::new() }
    }

    /// Relies on `HopSlotMap::len`: the number of live entries.
    #[verifier::external_body]
    pub(crate) fn len(&self) -> (r: usize)
        ensures
            r as nat == slots_of(*self).len(),
    {
        self.slots.len()
    }

    /// Relies on `HopSlotMap::insert`: a key that is not live, with an odd
    /// version, now mapped to `info`; it panics only when the map already
    /// holds 2^32 - 2 entries.
    #[verifier::external_body]
    pub(crate) fn insert(&mut self, info: EntityInfo) -> (r: u64)
        requires
            slots_of(*old(self)).len() < MAX_ENTITIES,
        ensures
            !slots_of(*old(self)).contains_key(r),
            r == canonical(r),
            slots_of(*final(self)) == slots_of(*old(self)).insert(r, info),
    {
        self.slots.insert(info).data().as_ffi()
    }

    /// Relies on `HopSlotMap::get` with the key that `KeyData::from_ffi`
    /// rebuilds from `raw` (that rebuild sets the occupied bit).
    #[verifier::external_body]
    pub(crate) fn get(&self, raw: u64) -> (r: Option<EntityInfo>)
        ensures
            r == (if slots_of(*self).contains_key(canonical(raw)) {
                Some(slots_of(*self)[canonical(raw)])
            } else {
                None
            }),
    {
        self.slots.get(DefaultKey::from(KeyData::from_ffi(raw))).copied()
    }

    /// Relies on `HopSlotMap::get_mut`: overwrites the entry of a live key.
    #[verifier::external_body]
    pub(crate) fn set(&mut self, raw: u64, info: EntityInfo) -> (r: bool)
        ensures
            r == slots_of(*old(self)).contains_key(canonical(raw)),
            slots_of(*final(self)) == (if r {
                slots_of(*old(self)).insert(canonical(raw), info)
            } else {
                slots_of(*old(self))
            }),
    {
        match self.slots.get_mut(DefaultKey::from(KeyData::from_ffi(raw))) {
            Some(slot) => {
                *slot = info;
                true
            },
            None => false,
        }
    }

    /// Relies on `HopSlotMap::remove`: the entry of a live key leaves.
    #[verifier::external_body]
    pub(crate) fn remove(&mut self, raw: u64) -> (r: Option<EntityInfo>)
        ensures
            r == (if slots_of(*old(self)).contains_key(canonical(raw)) {
                Some(slots_of(*old(self))[canonical(raw)])
            } else {
                None
            }),
            slots_of(*final(self)) == slots_of(*old(self)).remove(canonical(raw)),
    {
        self.slots.remove(DefaultKey::from(KeyData::from_ffi(raw)))
    }
}

} // verus!
