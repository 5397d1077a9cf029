//! Component columns, resource slots and per-cycle change flags.
use vstd::prelude::*;

verus! {

/// Handle of one segment in a component column.
#[derive(Clone, Copy, PartialEq, Eq, Structural, Debug)]
pub struct StorageID(pub u32);

/// One component type's column: a segment per archetype that holds the type,
/// each segment in the archetype's entity order.
pub struct ComponentList<T> {
    pub list: Vec<Vec<T>>,
}

impl<T> ComponentList<T> {
    pub fn new() -> (r: ComponentList<T>)
        ensures
            r.list@.len() == 0,
    {
        ComponentList { list: Vec::new() }
    }

    /// Opens a new, empty segment and returns its handle.
    pub fn allocate(&mut self) -> (r: StorageID)
        requires
            old(self).list@.len() < u32::MAX,
        ensures
            r.0 as int == old(self).list@.len(),
            final(self).list@.len() == old(self).list@.len() + 1,
            forall|s: int| 0 <= s < old(self).list@.len() ==> #[trigger] final(self).list@[s]
                == old(self).list@[s],
            final(self).list@.last()@.len() == 0,
    {
        let r = StorageID(self.list.len() as u32);
        self.list.push(Vec::new());
        r
    }

    /// Appends a component to a segment.
    pub fn add_to_storage(&mut self, storage: StorageID, component: T)
        requires
            (storage.0 as int) < old(self).list@.len(),
        ensures
            final(self).list@.len() == old(self).list@.len(),
            final(self).list@[storage.0 as int]@ == old(self).list@[storage.0 as int]@.push(
                component,
            ),
            forall|s: int|
                0 <= s < old(self).list@.len() && s != storage.0 ==> #[trigger] final(self).list@[s]
                    == old(self).list@[s],
    {
        let mut segment = Vec::new();
        std::mem::swap(&mut segment, &mut self.list[storage.0 as usize]);
        segment.push(component);
        std::mem::swap(&mut segment, &mut self.list[storage.0 as usize]);
    }

    /// The component at a place of a segment, if the place exists.
    pub fn get(&self, storage: StorageID, index_in_arche: u32) -> (r: Option<&T>)
        requires
            (storage.0 as int) < self.list@.len(),
        ensures
            r == (if (index_in_arche as int) < self.list@[storage.0 as int]@.len() {
                Some(&self.list@[storage.0 as int]@[index_in_arche as int])
            } else {
                None
            }),
    {
        let segment = &self.list[storage.0 as usize];
        if (index_in_arche as usize) < segment.len() {
            Some(&segment[index_in_arche as usize])
        } else {
            None
        }
    }

    /// Removes the component at a place of a segment; the segment's last
    /// component takes its place.
    pub fn swap_remove(&mut self, storage: StorageID, index: u32)
        requires
            (storage.0 as int) < old(self).list@.len(),
            (index as int) < old(self).list@[storage.0 as int]@.len(),
        ensures
            final(self).list@.len() == old(self).list@.len(),
            final(self).list@[storage.0 as int]@ == swap_removed(
                old(self).list@[storage.0 as int]@,
                index as int,
            ),
            forall|s: int|
                0 <= s < old(self).list@.len() && s != storage.0 ==> #[trigger] final(self).list@[s]
                    == old(self).list@[s],
    {
        let mut segment = Vec::new();
        std::mem::swap(&mut segment, &mut self.list[storage.0 as usize]);
        segment.swap_remove(index as usize);
        std::mem::swap(&mut segment, &mut self.list[storage.0 as usize]);
    }
}

/// A sequence after its element at `i` was replaced by the last one and the
/// last place dropped.
pub open spec fn swap_removed<A>(s: Seq<A>, i: int) -> Seq<A> {
    s.update(i, s.last()).drop_last()
}


/// The cell of one resource.
pub struct ResourceStorage<T> {
    pub inner: T,
}

impl<T> ResourceStorage<T> {
    pub fn get(&self) -> (r: &T)
        ensures
            *r == self.inner,
    {
        &self.inner
    }

    pub fn get_mut(&mut self) -> (r: &mut T)
        ensures
            *r == old(self).inner,
            final(self).inner == *final(r),
    {
        &mut self.inner
    }
}

/// One change flag per resource type.
pub struct ChangeManager {
    pub changed_resources: Vec<bool>,
}

impl ChangeManager {
    /// Flags for `count` resource types, all clear.
    pub fn new(count: usize) -> (r: ChangeManager)
        ensures
            r.changed_resources@ == Seq::new(count as nat, |i: int| false),
    {
        let mut changed_resources: Vec<bool> = Vec::new();
        let mut i: usize = 0;
        while i < count
            invariant
                i <= count,
                changed_resources@ == Seq::new(i as nat, |k: int| false),
            decreases count - i,
        {
            changed_resources.push(false);
            i = i + 1;
            assert(changed_resources@ =~= Seq::new(i as nat, |k: int| false));
        }
        ChangeManager { changed_resources }
    }

    /// Records that resource `index` was written.
    pub fn mark_resource_as_changed(&mut self, index: u32)
        requires
            (index as int) < old(self).changed_resources@.len(),
        ensures
            final(self).changed_resources@ == old(self).changed_resources@.update(index as int, true),
    {
        self.changed_resources.set(index as usize, true);
    }

    /// The flags, from now on only read.
    pub fn to_read_only(self) -> (r: ChangeManager)
        ensures
            r.changed_resources@ == self.changed_resources@,
    {
        self
    }

    /// Whether resource `index` was written.
    pub fn resource_changed(&self, index: u32) -> (r: bool)
        requires
            (index as int) < self.changed_resources@.len(),
        ensures
            r == self.changed_resources@[index as int],
    {
        self.changed_resources[index as usize]
    }
}

} // verus!
