//! Archetypes: one per distinct set of component types, each with its member
//! entities and a column segment per member type.
use crate::identity::EntityID;
use crate::requests::strictly_sorted;
use crate::storage::StorageID;
use vstd::prelude::*;

verus! {

/// Index of an archetype, in creation order.
#[derive(Clone, Copy, PartialEq, Eq, Structural, Debug)]
pub struct ArchetypeID(pub u32);

/// The place of `t` in a type list.
pub open spec fn slot(types: Seq<u32>, t: u32) -> int {
    choose|k: int| 0 <= k < types.len() && types[k] == t
}

/// Members of one archetype: the entities, in-archetype index order, and per
/// member type (strictly sorted) its segment handle.
pub struct ArchetypeInfo {
    pub entities: Vec<EntityID>,
    pub types: Vec<u32>,
    pub storages: Vec<StorageID>,
}

impl ArchetypeInfo {
    /// The type list is strictly sorted with one segment handle per type.
    pub open spec fn wf(&self) -> bool {
        &&& strictly_sorted(self.types@)
        &&& self.types@.len() == self.storages@.len()
        &&& self.entities@.len() <= u32::MAX
    }

    /// Number of member entities.
    pub fn len(&self) -> (r: u32)
        requires
            self.wf(),
        ensures
            r as int == self.entities@.len(),
    {
        self.entities.len() as u32
    }
}

/// In a strictly sorted list a value has one place at most.
pub proof fn lemma_slot_unique(types: Seq<u32>, k: int)
    requires
        strictly_sorted(types),
        0 <= k < types.len(),
    ensures
        slot(types, types[k]) == k,
{
    let j = slot(types, types[k]);
    assert(0 <= j < types.len() && types[j] == types[k]);
    if j < k {
        assert(types[j] < types[k]);
    } else if j > k {
        assert(types[k] < types[j]);
    }
}

/// The archetypes, in creation order.
pub struct ArchetypeManager {
    pub archetypes: Vec<ArchetypeInfo>,
}

impl ArchetypeManager {
    pub open spec fn wf(&self) -> bool {
        &&& self.archetypes@.len() <= u32::MAX
        &&& forall|a: int| 0 <= a < self.archetypes@.len() ==> #[trigger] self.archetypes@[a].wf()
        &&& forall|a: int, b: int|
            0 <= a < self.archetypes@.len() && 0 <= b < self.archetypes@.len() && a != b ==> (
            #[trigger] self.archetypes@[a]).types@ != (#[trigger] self.archetypes@[b]).types@
    }

    /// Appends `entity` to an archetype and returns its in-archetype index.
    pub fn register_entity(&mut self, archetype: ArchetypeID, entity: EntityID) -> (r: u32)
        requires
            old(self).wf(),
            (archetype.0 as int) < old(self).archetypes@.len(),
            old(self).archetypes@[archetype.0 as int].entities@.len() < u32::MAX,
        ensures
            final(self).wf(),
            r as int == old(self).archetypes@[archetype.0 as int].entities@.len(),
            final(self).archetypes@.len() == old(self).archetypes@.len(),
            final(self).archetypes@[archetype.0 as int].entities@ == old(self).archetypes@[archetype.0 as int].entities@.push(entity),
            final(self).archetypes@[archetype.0 as int].types@ == old(self).archetypes@[archetype.0 as int].types@,
            final(self).archetypes@[archetype.0 as int].storages@ == old(self).archetypes@[archetype.0 as int].storages@,
            forall|a: int|
                0 <= a < old(self).archetypes@.len() && a != archetype.0 ==> #[trigger] final(self).archetypes@[a] == old(self).archetypes@[a],
    {
        let a = archetype.0 as usize;
        let r = self.archetypes[a].entities.len() as u32;
        let mut info = ArchetypeInfo { entities: Vec::new(), types: Vec::new(), storages: Vec::new() };
        std::mem::swap(&mut info, &mut self.archetypes[a]);
        info.entities.push(entity);
        std::mem::swap(&mut info, &mut self.archetypes[a]);
        proof {
            let o = old(self).archetypes@;
            let n = self.archetypes@;
            assert(o[a as int].wf());
            assert forall|x: int| 0 <= x < n.len() implies #[trigger] n[x].wf() by {
                if x != a {
                    assert(o[x].wf());
                }
            }
            assert forall|x: int, y: int|
                0 <= x < n.len() && 0 <= y < n.len() && x != y implies (#[trigger] n[x]).types@
                != (#[trigger] n[y]).types@ by {
                assert(o[x].types@ != o[y].types@);
            }
        }
        r
    }

    /// The archetype whose type list is exactly `components`, if one exists.
    pub fn find_archetype(&self, components: &Vec<u32>) -> (r: Option<ArchetypeID>)
        requires
            self.wf(),
        ensures
            match r {
                Some(id) => (id.0 as int) < self.archetypes@.len()
                    && self.archetypes@[id.0 as int].types@ == components@,
                None => forall|a: int|
                    0 <= a < self.archetypes@.len() ==> #[trigger] self.archetypes@[a].types@
                        != components@,
            },
    {
        let len = self.archetypes.len();
        let mut i: usize = 0;
        while i < len
            invariant
                self.wf(),
                len == self.archetypes@.len(),
                i <= len,
                forall|a: int| 0 <= a < i ==> #[trigger] self.archetypes@[a].types@ != components@,
            decreases len - i,
        {
            if same_types(&self.archetypes[i].types, components) {
                return Some(ArchetypeID(i as u32));
            }
            i = i + 1;
        }
        None
    }

    /// The segment that holds type `t` for an archetype; none if the
    /// archetype does not exist or lacks the type.
    pub fn find_storage(&self, archetype: ArchetypeID, t: u32) -> (r: Option<StorageID>)
        requires
            self.wf(),
        ensures
            r == (if (archetype.0 as int) < self.archetypes@.len()
                && self.archetypes@[archetype.0 as int].types@.contains(t) {
                Some(
                    self.archetypes@[archetype.0 as int].storages@[slot(
                        self.archetypes@[archetype.0 as int].types@,
                        t,
                    )],
                )
            } else {
                None
            }),
    {
        let a = archetype.0 as usize;
        if a >= self.archetypes.len() {
            return None;
        }
        let info = &self.archetypes[a];
        assert(*info == self.archetypes@[archetype.0 as int]);
        assert(info.wf());
        let len = info.types.len();
        let mut k: usize = 0;
        while k < len
            invariant
                info.wf(),
                (archetype.0 as int) < self.archetypes@.len(),
                *info == self.archetypes@[archetype.0 as int],
                len == info.types@.len(),
                k <= len,
                forall|j: int| 0 <= j < k ==> info.types@[j] != t,
            decreases len - k,
        {
            if info.types[k] == t {
                proof {
                    lemma_slot_unique(info.types@, k as int);
                    assert(info.types@[k as int] == t);
                    assert(info.types@.contains(t));
                }
                return Some(info.storages[k]);
            }
            k = k + 1;
        }
        None
    }
}

/// Whether two type lists are equal, element by element.
fn same_types(a: &Vec<u32>, b: &Vec<u32>) -> (r: bool)
    ensures
        r == (a@ == b@),
{
    if a.len() != b.len() {
        return false;
    }
    let len = a.len();
    let mut i: usize = 0;
    while i < len
        invariant
            len == a@.len(),
            len == b@.len(),
            i <= len,
            forall|k: int| 0 <= k < i ==> a@[k] == b@[k],
        decreases len - i,
    {
        if a[i] != b[i] {
            return false;
        }
        i = i + 1;
    }
    assert(a@ =~= b@);
    true
}

} // verus!
