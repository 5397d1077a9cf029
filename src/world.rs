//! The world: identity table, archetypes, component columns, resources and
//! their change flags.
use crate::archetype::{lemma_slot_unique, slot, ArchetypeID, ArchetypeInfo, ArchetypeManager};
use crate::identity::{
    canonical, empty_slots, slots_of, EntityID, EntityInfo, IdentityTable, MAX_ENTITIES,
};
use crate::requests::{admits, disjoint, strictly_sorted, ComponentRequests};
use crate::storage::{swap_removed, ChangeManager, ComponentList, ResourceStorage, StorageID};
use vstd::prelude::*;

verus! {

/// Every live entity points at a member place of an archetype that lists it
/// there.
pub open spec fn entities_placed(t: Map<u64, EntityInfo>, a: Seq<ArchetypeInfo>) -> bool {
    forall|k: u64|
        #![trigger t[k]]
        t.contains_key(k) ==> {
            let info = t[k];
            &&& (info.archetype_id as int) < a.len()
            &&& (info.in_archetype_id as int) < a[info.archetype_id as int].entities@.len()
            &&& a[info.archetype_id as int].entities@[info.in_archetype_id as int]@ == k
        }
}

/// Every archetype member is live and points back at its place.
pub open spec fn members_known(t: Map<u64, EntityInfo>, a: Seq<ArchetypeInfo>) -> bool {
    forall|x: int, i: int|
        #![trigger a[x].entities@[i]]
        0 <= x < a.len() && 0 <= i < a[x].entities@.len() ==> {
            &&& t.contains_key(a[x].entities@[i]@)
            &&& t[a[x].entities@[i]@] == EntityInfo {
                archetype_id: x as u32,
                in_archetype_id: i as u32,
            }
        }
}

/// Member type `k` of an archetype has a segment as long as the member list.
pub open spec fn segment_fits<V>(arch: ArchetypeInfo, k: int, c: Seq<ComponentList<V>>) -> bool {
    let t = arch.types@[k] as int;
    let s = arch.storages@[k].0 as int;
    &&& t < c.len()
    &&& s < c[t].list@.len()
    &&& c[t].list@[s]@.len() == arch.entities@.len()
}

/// Each member type of an archetype has a segment, as long as the member list.
pub open spec fn segments_sized<V>(a: Seq<ArchetypeInfo>, c: Seq<ComponentList<V>>) -> bool {
    forall|x: int, k: int|
        0 <= x < a.len() && 0 <= k < a[x].types@.len() ==> #[trigger] segment_fits(a[x], k, c)
}

/// Type and segment handle of member type `k` of an archetype.
pub open spec fn segment_of(arch: ArchetypeInfo, k: int) -> (u32, u32) {
    (arch.types@[k], arch.storages@[k].0)
}

/// No segment belongs to two archetypes.
pub open spec fn segments_owned(a: Seq<ArchetypeInfo>) -> bool {
    forall|x1: int, k1: int, x2: int, k2: int|
        0 <= x1 < a.len() && 0 <= k1 < a[x1].types@.len() && 0 <= x2 < a.len() && 0 <= k2
            < a[x2].types@.len() && #[trigger] segment_of(a[x1], k1) == #[trigger] segment_of(
            a[x2],
            k2,
        ) ==> x1 == x2 && k1 == k2
}

/// Columns hold no more segments than there are archetypes.
pub open spec fn columns_bounded<V>(a: Seq<ArchetypeInfo>, c: Seq<ComponentList<V>>) -> bool {
    forall|x: int| 0 <= x < c.len() ==> #[trigger] c[x].list@.len() <= a.len()
}

/// Type `t` is among the first `k` entries of a list.
pub open spec fn listed_before(s: Seq<u32>, k: int, t: int) -> bool {
    exists|j: int| 0 <= j < k && s[j] == t
}

/// No two components of a bundle share a type.
pub open spec fn distinct_types<V>(b: Seq<(u32, V)>) -> bool {
    forall|i: int, j: int| 0 <= i < j < b.len() ==> b[i].0 != b[j].0
}

/// Type `t` occurs in a bundle.
pub open spec fn in_bundle<V>(b: Seq<(u32, V)>, t: u32) -> bool {
    exists|k: int| 0 <= k < b.len() && b[k].0 == t
}

/// A bundle's components by type.
pub open spec fn bundle_map<V>(b: Seq<(u32, V)>) -> Map<u32, V> {
    Map::new(
        |t: u32| in_bundle(b, t),
        |t: u32| b[choose|k: int| 0 <= k < b.len() && b[k].0 == t].1,
    )
}

/// The types of a bundle.
pub open spec fn bundle_types<V>(b: Seq<(u32, V)>) -> Set<u32> {
    Set::new(|t: u32| in_bundle(b, t))
}

/// Segment `(u, s)` is one of an archetype's.
pub open spec fn owns_segment(arch: ArchetypeInfo, u: int, s: int) -> bool {
    exists|k: int| 0 <= k < arch.types@.len() && arch.types@[k] == u && arch.storages@[k].0 == s
}

/// In a bundle with distinct types, the entry of a type holds its value.
pub proof fn lemma_bundle_value<V>(b: Seq<(u32, V)>, j: int)
    requires
        distinct_types(b),
        0 <= j < b.len(),
    ensures
        bundle_map(b).contains_key(b[j].0),
        bundle_map(b)[b[j].0] == b[j].1,
{
    let t = b[j].0;
    assert(in_bundle(b, t));
    let k = choose|k: int| 0 <= k < b.len() && b[k].0 == t;
    if k < j {
        assert(b[k].0 != b[j].0);
    } else if k > j {
        assert(b[j].0 != b[k].0);
    }
}

/// Adds `t` to a strictly sorted vector that lacks it.
fn insert_sorted(v: &mut Vec<u32>, t: u32)
    requires
        strictly_sorted(old(v)@),
        !old(v)@.contains(t),
    ensures
        strictly_sorted(final(v)@),
        forall|x: u32| final(v)@.contains(x) == (old(v)@.contains(x) || x == t),
{
    let ghost s = v@;
    let len = v.len();
    let mut i: usize = 0;
    while i < len && v[i] < t
        invariant
            s == v@,
            len == s.len(),
            i <= len,
            forall|k: int| 0 <= k < i ==> s[k] < t,
        decreases len - i,
    {
        i = i + 1;
    }
    v.insert(i, t);
    proof {
        let n = v@;
        if i < len {
            assert(s[i as int] != t);
        }
        assert forall|p: int, q: int| 0 <= p < q < n.len() implies n[p] < n[q] by {
            if q < i {
            } else if q == i {
            } else if p < i {
                assert(s[q - 1] > t);
            } else if p == i {
                assert(s[q - 1] > t) by {
                    if q - 1 > i {
                        assert(s[i as int] < s[q - 1]);
                    }
                }
            } else {
                assert(s[p - 1] < s[q - 1]);
            }
        }
        assert forall|x: u32| n.contains(x) == (s.contains(x) || x == t) by {
            if n.contains(x) {
                let k = choose|k: int| 0 <= k < n.len() && n[k] == x;
                if k < i {
                    assert(s[k] == x);
                } else if k > i {
                    assert(s[k - 1] == x);
                }
            }
            if s.contains(x) {
                let k = choose|k: int| 0 <= k < s.len() && s[k] == x;
                if k < i {
                    assert(n[k] == x);
                } else {
                    assert(n[k + 1] == x);
                }
            }
            if x == t {
                assert(n[i as int] == t);
            }
        }
    }
}

/// The bundle's types, strictly sorted.
fn sorted_types<V>(bundle: &Vec<(u32, V)>) -> (r: Vec<u32>)
    requires
        distinct_types(bundle@),
    ensures
        strictly_sorted(r@),
        forall|t: u32| r@.contains(t) == in_bundle(bundle@, t),
{
    let mut r: Vec<u32> = Vec::new();
    let len = bundle.len();
    let mut i: usize = 0;
    while i < len
        invariant
            len == bundle@.len(),
            i <= len,
            distinct_types(bundle@),
            strictly_sorted(r@),
            forall|t: u32| r@.contains(t) == (exists|k: int| 0 <= k < i && bundle@[k].0 == t),
        decreases len - i,
    {
        let t = bundle[i].0;
        proof {
            if r@.contains(t) {
                let k = choose|k: int| 0 <= k < i && bundle@[k].0 == t;
                assert(bundle@[k].0 != bundle@[i as int].0);
            }
        }
        insert_sorted(&mut r, t);
        proof {
            assert forall|x: u32| r@.contains(x) == (exists|k: int| 0 <= k < i + 1 && bundle@[k].0 == x) by {
                if exists|k: int| 0 <= k < i + 1 && bundle@[k].0 == x {
                    let k = choose|k: int| 0 <= k < i + 1 && bundle@[k].0 == x;
                    if k < i {
                        assert(exists|k2: int| 0 <= k2 < i && bundle@[k2].0 == x);
                    }
                }
            }
        }
        i = i + 1;
    }
    r
}

/// Members of the first `n` archetypes that pass the filter, archetype by
/// archetype in creation order, each in member order.
pub open spec fn matching(a: Seq<ArchetypeInfo>, req: ComponentRequests, n: int) -> Seq<EntityID>
    decreases n,
{
    if n <= 0 {
        Seq::empty()
    } else {
        matching(a, req, n - 1) + if admits(&req, a[n - 1].types@.to_set()) {
            a[n - 1].entities@
        } else {
            Seq::empty()
        }
    }
}

/// A deferred change to a world.
pub enum Command<V, R> {
    /// Spawn an entity with this bundle.
    Spawn(Vec<(u32, V)>),
    /// Despawn this entity.
    Despawn(EntityID),
    /// Overwrite this resource.
    SetResource(u32, R),
}

/// The entity map after a command, where a spawn, if it took place, was
/// given the handle `id`.
pub open spec fn command_view<V, R>(
    m: Map<u64, Map<u32, V>>,
    c: Command<V, R>,
    id: Option<EntityID>,
) -> Map<u64, Map<u32, V>> {
    match c {
        Command::Spawn(b) => match id {
            Some(e) => m.insert(e@, bundle_map(b@)),
            None => m,
        },
        Command::Despawn(e) => m.remove(e@),
        Command::SetResource(_, _) => m,
    }
}

/// Resource values after a command.
pub open spec fn command_resources<V, R>(res: Seq<R>, c: Command<V, R>) -> Seq<R> {
    match c {
        Command::SetResource(i, v) => if (i as int) < res.len() {
            res.update(i as int, v)
        } else {
            res
        },
        _ => res,
    }
}

/// Change flags after a command: overwriting a resource marks it.
pub open spec fn command_flags<V, R>(flags: Seq<bool>, c: Command<V, R>) -> Seq<bool> {
    match c {
        Command::SetResource(i, _) => if (i as int) < flags.len() {
            flags.update(i as int, true)
        } else {
            flags
        },
        _ => flags,
    }
}

/// Two strictly sorted sequences with the same elements are equal.
pub proof fn lemma_sorted_same_set(a: Seq<u32>, b: Seq<u32>)
    requires
        strictly_sorted(a),
        strictly_sorted(b),
        a.to_set() == b.to_set(),
    ensures
        a == b,
    decreases a.len(),
{
    if a.len() == 0 {
        if b.len() > 0 {
            assert(b.to_set().contains(b[0]));
        }
        assert(a =~= b);
    } else {
        assert(a.to_set().contains(a[0]));
        assert(b.len() > 0);
        assert(b.to_set().contains(b[0]));
        let j = choose|j: int| 0 <= j < b.len() && b[j] == a[0];
        let i = choose|i: int| 0 <= i < a.len() && a[i] == b[0];
        if i > 0 {
            assert(a[0] < a[i]);
        }
        if j > 0 {
            assert(b[0] < b[j]);
        }
        assert(a[0] == b[0]);
        let a1 = a.drop_first();
        let b1 = b.drop_first();
        assert forall|u: u32| a1.to_set().contains(u) == b1.to_set().contains(u) by {
            if a1.contains(u) {
                let k = choose|k: int| 0 <= k < a1.len() && a1[k] == u;
                assert(a[k + 1] == u);
                assert(a.to_set().contains(u));
                assert(b.contains(u));
                let m = choose|m: int| 0 <= m < b.len() && b[m] == u;
                assert(a[0] < a[k + 1]);
                assert(m != 0);
                assert(b1[m - 1] == u);
            }
            if b1.contains(u) {
                let k = choose|k: int| 0 <= k < b1.len() && b1[k] == u;
                assert(b[k + 1] == u);
                assert(b.to_set().contains(u));
                assert(a.contains(u));
                let m = choose|m: int| 0 <= m < a.len() && a[m] == u;
                assert(b[0] < b[k + 1]);
                assert(m != 0);
                assert(a1[m - 1] == u);
            }
        }
        assert(a1.to_set() =~= b1.to_set());
        lemma_sorted_same_set(a1, b1);
        assert(a.len() == b.len());
        assert forall|k: int| 0 <= k < a.len() implies a[k] == b[k] by {
            if k > 0 {
                assert(a[k] == a1[k - 1]);
                assert(b[k] == b1[k - 1]);
            }
        }
        assert(a =~= b);
    }
}

/// An entity in a query's result is a member of a passing archetype.
proof fn lemma_matching_member(a: Seq<ArchetypeInfo>, req: ComponentRequests, n: int, e: EntityID)
    requires
        matching(a, req, n).contains(e),
        n <= a.len(),
    ensures
        exists|y: int, i: int|
            0 <= y < n && 0 <= i < a[y].entities@.len() && a[y].entities@[i] == e && admits(&req, a[y].types@.to_set()),
    decreases n,
{
    if n > 0 {
        let prev = matching(a, req, n - 1);
        let k = choose|k: int| 0 <= k < matching(a, req, n).len() && matching(a, req, n)[k] == e;
        if k < prev.len() {
            assert(prev[k] == e);
            lemma_matching_member(a, req, n - 1, e);
        } else {
            assert(admits(&req, a[n - 1].types@.to_set()));
            assert(a[n - 1].entities@[k - prev.len()] == e);
        }
    }
}

/// Every entry of a query's result is a live entity of one of the first `n`
/// archetypes, and entries come in order of archetype, then of place.
proof fn lemma_matching_order(a: Seq<ArchetypeInfo>, t: Map<u64, EntityInfo>, req: ComponentRequests, n: int)
    requires
        0 <= n <= a.len(),
        a.len() <= u32::MAX,
        forall|y: int| 0 <= y < a.len() ==> (#[trigger] a[y]).entities@.len() <= u32::MAX,
        members_known(t, a),
    ensures
        forall|i: int|
            0 <= i < matching(a, req, n).len() ==> t.contains_key((#[trigger] matching(a, req, n)[i])@)
                && (t[matching(a, req, n)[i]@].archetype_id as int) < n,
        forall|i: int, j: int|
            0 <= i < j < matching(a, req, n).len() ==> {
                let ei = t[(#[trigger] matching(a, req, n)[i])@];
                let ej = t[(#[trigger] matching(a, req, n)[j])@];
                ei.archetype_id < ej.archetype_id || (ei.archetype_id == ej.archetype_id && ei.in_archetype_id
                    < ej.in_archetype_id)
            },
    decreases n,
{
    if n > 0 {
        lemma_matching_order(a, t, req, n - 1);
        let prev = matching(a, req, n - 1);
        let m = matching(a, req, n);
        let seg = if admits(&req, a[n - 1].types@.to_set()) { a[n - 1].entities@ } else { Seq::empty() };
        assert(m == prev + seg);
        assert forall|i: int| 0 <= i < m.len() implies t.contains_key((#[trigger] m[i])@) && (t[m[i]@].archetype_id as int) < n by {
            if i < prev.len() {
                assert(m[i] == prev[i]);
            } else {
                assert(m[i] == a[n - 1].entities@[i - prev.len()]);
                assert(t[a[n - 1].entities@[i - prev.len()]@].archetype_id == (n - 1) as u32);
            }
        }
        assert forall|i: int, j: int| 0 <= i < j < m.len() implies {
            let ei = t[(#[trigger] m[i])@];
            let ej = t[(#[trigger] m[j])@];
            ei.archetype_id < ej.archetype_id || (ei.archetype_id == ej.archetype_id && ei.in_archetype_id
                < ej.in_archetype_id)
        } by {
            if j < prev.len() {
                assert(m[i] == prev[i] && m[j] == prev[j]);
            } else if i < prev.len() {
                assert(m[i] == prev[i]);
                assert(m[j] == a[n - 1].entities@[j - prev.len()]);
                assert(t[a[n - 1].entities@[j - prev.len()]@].archetype_id == (n - 1) as u32);
            } else {
                assert(m[i] == a[n - 1].entities@[i - prev.len()]);
                assert(m[j] == a[n - 1].entities@[j - prev.len()]);
                assert(t[a[n - 1].entities@[i - prev.len()]@].in_archetype_id == (i - prev.len()) as u32);
                assert(t[a[n - 1].entities@[j - prev.len()]@].in_archetype_id == (j - prev.len()) as u32);
            }
        }
    }
}

/// A member of a passing archetype is in a query's result.
proof fn lemma_matching_includes(a: Seq<ArchetypeInfo>, req: ComponentRequests, n: int, y: int, i: int)
    requires
        0 <= y < n <= a.len(),
        0 <= i < a[y].entities@.len(),
        admits(&req, a[y].types@.to_set()),
    ensures
        exists|k: int| 0 <= k < matching(a, req, n).len() && #[trigger] matching(a, req, n)[k] == a[y].entities@[i],
    decreases n,
{
    let prev = matching(a, req, n - 1);
    if y < n - 1 {
        lemma_matching_includes(a, req, n - 1, y, i);
        let k = choose|k: int| 0 <= k < prev.len() && #[trigger] prev[k] == a[y].entities@[i];
        assert(matching(a, req, n)[k] == prev[k]);
    } else {
        assert(matching(a, req, n)[prev.len() + i] == a[y].entities@[i]);
    }
}

/// A component store with runtime-registered types: component types are the
/// indices `0..component_type_count`, resource types `0..resource_count`.
pub struct World<V, R> {
    entities: IdentityTable,
    archeman: ArchetypeManager,
    columns: Vec<ComponentList<V>>,
    resources: Vec<ResourceStorage<R>>,
    changes_prev: ChangeManager,
    changes_new: ChangeManager,
}

impl<V, R> World<V, R> {
    pub closed spec fn wf(&self) -> bool {
        let t = slots_of(self.entities);
        let a = self.archeman.archetypes@;
        let c = self.columns@;
        &&& self.archeman.wf()
        &&& t.dom().finite()
        &&& t.len() <= MAX_ENTITIES
        &&& c.len() <= u32::MAX
        &&& self.resources@.len() <= u32::MAX
        &&& self.changes_prev.changed_resources@.len() == self.resources@.len()
        &&& self.changes_new.changed_resources@.len() == self.resources@.len()
        &&& entities_placed(t, a)
        &&& members_known(t, a)
        &&& segments_sized(a, c)
        &&& segments_owned(a)
        &&& columns_bounded(a, c)
    }

    /// The components of the entity with key `k`, by type.
    pub closed spec fn components_of(&self, k: u64) -> Map<u32, V> {
        let info = slots_of(self.entities)[k];
        let arch = self.archeman.archetypes@[info.archetype_id as int];
        Map::new(
            |t: u32| arch.types@.contains(t),
            |t: u32|
                self.columns@[t as int].list@[arch.storages@[slot(arch.types@, t)].0 as int]@[info.in_archetype_id as int],
        )
    }

    /// Live entities, by key, each with its components by type.
    pub closed spec fn view(&self) -> Map<u64, Map<u32, V>> {
        Map::new(|k: u64| slots_of(self.entities).contains_key(k), |k: u64| self.components_of(k))
    }

    /// Number of registered component types.
    pub closed spec fn component_type_count(&self) -> nat {
        self.columns@.len()
    }

    /// Number of archetypes created so far.
    pub closed spec fn archetype_count(&self) -> nat {
        self.archeman.archetypes@.len()
    }

    /// Type sets of the archetypes, in creation order.
    pub closed spec fn archetype_types(&self) -> Seq<Seq<u32>> {
        self.archeman.archetypes@.map_values(|x: ArchetypeInfo| x.types@)
    }

    /// Resource values, by resource type.
    pub closed spec fn resource_values(&self) -> Seq<R> {
        self.resources@.map_values(|x: ResourceStorage<R>| x.inner)
    }

    /// Which resources were written in the previous cycle.
    pub closed spec fn changed_last_cycle(&self) -> Seq<bool> {
        self.changes_prev.changed_resources@
    }

    /// Which resources were written in the current cycle so far.
    pub closed spec fn changed_this_cycle(&self) -> Seq<bool> {
        self.changes_new.changed_resources@
    }

    /// A world with `component_types` component types, no entity, and the
    /// given initial resource values; no change recorded.
    pub fn new(component_types: u32, resources: Vec<R>) -> (r: World<V, R>)
        requires
            resources@.len() <= u32::MAX,
        ensures
            r.wf(),
            r.view() == Map::<u64, Map<u32, V>>::empty(),
            r.component_type_count() == component_types,
            r.archetype_count() == 0,
            r.resource_count() == resources@.len(),
            r.resource_values() == resources@,
            r.changed_last_cycle() == Seq::new(resources@.len(), |i: int| false),
            r.changed_this_cycle() == Seq::new(resources@.len(), |i: int| false),
    {
        let mut columns: Vec<ComponentList<V>> = Vec::new();
        let mut i: u32 = 0;
        while i < component_types
            invariant
                i <= component_types,
                columns@.len() == i,
                forall|x: int| 0 <= x < i ==> #[trigger] columns@[x].list@.len() == 0,
            decreases component_types - i,
        {
            columns.push(ComponentList::new());
            i = i + 1;
        }
        let ghost initial = resources@;
        let mut rest = resources;
        let mut slots: Vec<ResourceStorage<R>> = Vec::new();
        while rest.len() > 0
            invariant
                slots@.map_values(|x: ResourceStorage<R>| x.inner) + rest@ == initial,
            decreases rest@.len(),
        {
            let value = rest.remove(0);
            let ghost before = slots@.map_values(|x: ResourceStorage<R>| x.inner);
            slots.push(ResourceStorage { inner: value });
            proof {
                assert(slots@.map_values(|x: ResourceStorage<R>| x.inner) =~= before.push(value));
                assert(before.push(value) + rest@ =~= before + (seq![value] + rest@));
            }
        }
        assert(slots@.map_values(|x: ResourceStorage<R>| x.inner) =~= initial);
        let count = slots.len();
        let w = World {
            entities: IdentityTable::new(),
            archeman: ArchetypeManager { archetypes: Vec::new() },
            columns,
            resources: slots,
            changes_prev: ChangeManager::new(count),
            changes_new: ChangeManager::new(count),
        };
        assert(w.view() =~= Map::<u64, Map<u32, V>>::empty());
        w
    }

    /// Two worlds that keep an entity in the same archetype layout, with the
    /// same component values at its places, agree on its components.
    proof fn lemma_same_components(w1: &World<V, R>, w2: &World<V, R>, k: u64)
        requires
            slots_of(w1.entities).contains_key(k),
            slots_of(w2.entities).contains_key(k),
            slots_of(w1.entities)[k].archetype_id == slots_of(w2.entities)[k].archetype_id,
            ({
                let i1 = slots_of(w1.entities)[k].in_archetype_id as int;
                let i2 = slots_of(w2.entities)[k].in_archetype_id as int;
                let x = slots_of(w1.entities)[k].archetype_id as int;
                let a1 = w1.archeman.archetypes@[x];
                let a2 = w2.archeman.archetypes@[x];
                &&& a1.types@ == a2.types@
                &&& a1.storages@ == a2.storages@
                &&& forall|j: int|
                    0 <= j < a1.types@.len() ==> #[trigger] w1.columns@[a1.types@[j] as int].list@[a1.storages@[j].0 as int]@[i1]
                        == w2.columns@[a1.types@[j] as int].list@[a1.storages@[j].0 as int]@[i2]
            }),
        ensures
            w1.components_of(k) == w2.components_of(k),
    {
        let info = slots_of(w1.entities)[k];
        let x = info.archetype_id as int;
        let a1 = w1.archeman.archetypes@[x];
        assert forall|t: u32| a1.types@.contains(t) implies w1.components_of(k)[t]
            == w2.components_of(k)[t] by {
            let j = slot(a1.types@, t);
            assert(a1.types@[j] == t);
        }
        assert(w1.components_of(k) =~= w2.components_of(k));
    }

    /// Opens an archetype for a type list that has none yet, with an empty
    /// segment in each member type's column.
    fn create_archetype(&mut self, components: Vec<u32>) -> (r: ArchetypeID)
        requires
            old(self).wf(),
            strictly_sorted(components@),
            forall|k: int| 0 <= k < components@.len() ==> (components@[k] as int) < old(self).columns@.len(),
            forall|x: int|
                0 <= x < old(self).archeman.archetypes@.len() ==> #[trigger] old(self).archeman.archetypes@[x].types@
                    != components@,
            old(self).archeman.archetypes@.len() < u32::MAX,
        ensures
            final(self).wf(),
            r.0 as int == old(self).archeman.archetypes@.len(),
            final(self).archeman.archetypes@.len() == old(self).archeman.archetypes@.len() + 1,
            forall|x: int|
                0 <= x < old(self).archeman.archetypes@.len() ==> #[trigger] final(self).archeman.archetypes@[x]
                    == old(self).archeman.archetypes@[x],
            final(self).archeman.archetypes@[r.0 as int].types@ == components@,
            final(self).archeman.archetypes@[r.0 as int].entities@.len() == 0,
            final(self).view() == old(self).view(),
            slots_of(final(self).entities) == slots_of(old(self).entities),
            final(self).columns@.len() == old(self).columns@.len(),
            final(self).resources == old(self).resources,
            final(self).changes_prev == old(self).changes_prev,
            final(self).changes_new == old(self).changes_new,
    {
        let ghost c0 = self.columns@;
        let ghost a0 = self.archeman.archetypes@;
        let archetype_id = ArchetypeID(self.archeman.archetypes.len() as u32);
        let len = components.len();
        let mut storages: Vec<StorageID> = Vec::new();
        let mut k: usize = 0;
        while k < len
            invariant
                len == components@.len(),
                k <= len,
                strictly_sorted(components@),
                forall|j: int| 0 <= j < len ==> (components@[j] as int) < c0.len(),
                self.archeman.archetypes@ == a0,
                self.entities == old(self).entities,
                self.resources == old(self).resources,
                self.changes_prev == old(self).changes_prev,
                self.changes_new == old(self).changes_new,
                self.columns@.len() == c0.len(),
                columns_bounded(a0, c0),
                a0.len() < u32::MAX,
                storages@.len() == k,
                forall|j: int| 0 <= j < k ==> #[trigger] storages@[j].0 == c0[components@[j] as int].list@.len(),
                forall|t: int|
                    0 <= t < c0.len() ==> #[trigger] self.columns@[t].list@.len() == c0[t].list@.len()
                        + (if listed_before(components@, k as int, t) { 1int } else { 0int }),
                forall|t: int, s: int|
                    0 <= t < c0.len() && 0 <= s < c0[t].list@.len() ==> #[trigger] self.columns@[t].list@[s]
                        == c0[t].list@[s],
                forall|t: int|
                    0 <= t < c0.len() && listed_before(components@, k as int, t) ==> (#[trigger] self.columns@[t].list@[c0[t].list@.len() as int])@.len() == 0,
            decreases len - k,
        {
            let t = components[k];
            let ghost before = self.columns@;
            proof {
                assert(!listed_before(components@, k as int, t as int)) by {
                    if listed_before(components@, k as int, t as int) {
                        let j = choose|j: int| 0 <= j < k && components@[j] == t;
                        assert(components@[j] < components@[k as int]);
                    }
                }
                assert(self.columns@[t as int].list@.len() == c0[t as int].list@.len());
                assert(c0[t as int].list@.len() <= a0.len());
            }
            let mut column = ComponentList::new();
            std::mem::swap(&mut column, &mut self.columns[t as usize]);
            let storage = column.allocate();
            let ghost allocated = column;
            std::mem::swap(&mut column, &mut self.columns[t as usize]);
            storages.push(storage);
            proof {
                assert(listed_before(components@, k + 1, t as int));
                assert forall|u: int| 0 <= u < c0.len() && u != t implies listed_before(
                    components@,
                    k + 1,
                    u,
                ) == listed_before(components@, k as int, u) by {
                    if listed_before(components@, k + 1, u) {
                        let j = choose|j: int| 0 <= j < k + 1 && components@[j] == u;
                        assert(j < k);
                    }
                    if listed_before(components@, k as int, u) {
                        let j = choose|j: int| 0 <= j < k && components@[j] == u;
                        assert(j < k + 1);
                    }
                }
                assert(self.columns@ == before.update(t as int, allocated));
                assert(allocated.list@.last() == allocated.list@[c0[t as int].list@.len() as int]);
                assert forall|u: int, s: int|
                    0 <= u < c0.len() && 0 <= s < c0[u].list@.len() implies #[trigger] self.columns@[u].list@[s]
                        == c0[u].list@[s] by {
                    assert(before[u].list@[s] == c0[u].list@[s]);
                }
                assert forall|u: int|
                    0 <= u < c0.len() implies #[trigger] self.columns@[u].list@.len() == c0[u].list@.len()
                        + (if listed_before(components@, k + 1, u) { 1int } else { 0int }) by {
                    assert(before[u].list@.len() == c0[u].list@.len() + (if listed_before(components@, k as int, u) { 1int } else { 0int }));
                }
                assert forall|u: int|
                    0 <= u < c0.len() && listed_before(components@, k + 1, u) implies (#[trigger] self.columns@[u].list@[c0[u].list@.len() as int])@.len() == 0 by {
                    if u != t {
                        assert(before[u].list@.len() == c0[u].list@.len() + 1);
                        assert(before[u].list@[c0[u].list@.len() as int]@.len() == 0);
                    }
                }
            }
            k = k + 1;
        }
        let info = ArchetypeInfo { entities: Vec::new(), types: components, storages };
        self.archeman.archetypes.push(info);
        proof {
            let a = self.archeman.archetypes@;
            let c = self.columns@;
            let t = slots_of(self.entities);
            assert(t == slots_of(old(self).entities));
            assert(entities_placed(t, a0));
            assert(members_known(t, a0));
            assert(segments_sized(a0, c0));
            assert(segments_owned(a0));
            assert(a[a0.len() as int] == info);
            assert(info.storages@.len() == info.types@.len());
            assert forall|x: int| 0 <= x < a.len() implies #[trigger] a[x].wf() by {
                if x < a0.len() {
                    assert(a[x] == a0[x]);
                }
            }
            assert forall|x: int, y: int| 0 <= x < a.len() && 0 <= y < a.len() && x != y
                implies (#[trigger] a[x]).types@ != (#[trigger] a[y]).types@ by {
                if x < a0.len() && y < a0.len() {
                    assert(a[x] == a0[x] && a[y] == a0[y]);
                    assert(a0[x].types@ != a0[y].types@);
                } else if x < a0.len() {
                    assert(a[x] == a0[x]);
                    assert(a[y].types@ == components@);
                    assert(a0[x].types@ != components@);
                } else {
                    assert(a[y] == a0[y]);
                    assert(a[x].types@ == components@);
                    assert(a0[y].types@ != components@);
                }
            }
            assert forall|x: int, kk: int| 0 <= x < a.len() && 0 <= kk < a[x].types@.len()
                implies #[trigger] segment_fits(a[x], kk, c) by {
                if x < a0.len() {
                    assert(a[x] == a0[x]);
                    assert(segment_fits(a0[x], kk, c0));
                    assert(a0[x].wf());
                    let tt = a0[x].types@[kk] as int;
                    let ss = a0[x].storages@[kk].0 as int;
                    assert(c[tt].list@[ss] == c0[tt].list@[ss]);
                } else {
                    let tt = components@[kk] as int;
                    assert(listed_before(components@, len as int, tt));
                }
            }
            assert(segments_sized(a, c));
            assert forall|x1: int, k1: int, x2: int, k2: int|
                0 <= x1 < a.len() && 0 <= k1 < a[x1].types@.len() && 0 <= x2 < a.len() && 0 <= k2
                    < a[x2].types@.len() && #[trigger] segment_of(a[x1], k1) == #[trigger] segment_of(a[x2], k2)
                implies x1 == x2 && k1 == k2 by {
                if x1 < a0.len() && x2 < a0.len() {
                    assert(a[x1] == a0[x1] && a[x2] == a0[x2]);
                    assert(segment_of(a0[x1], k1) == segment_of(a0[x2], k2));
                } else if x1 < a0.len() {
                    assert(a[x1] == a0[x1]);
                    assert(segment_fits(a0[x1], k1, c0));
                    assert(storages@[k2].0 == c0[components@[k2] as int].list@.len());
                } else if x2 < a0.len() {
                    assert(a[x2] == a0[x2]);
                    assert(segment_fits(a0[x2], k2, c0));
                    assert(storages@[k1].0 == c0[components@[k1] as int].list@.len());
                } else {
                    if k1 < k2 {
                        assert(components@[k1] < components@[k2]);
                    } else if k2 < k1 {
                        assert(components@[k2] < components@[k1]);
                    }
                }
            }
            assert forall|x: int| 0 <= x < c.len() implies #[trigger] c[x].list@.len() <= a.len() by {}
            assert forall|kk: u64| t.contains_key(kk) implies {
                let info = t[kk];
                &&& (info.archetype_id as int) < a.len()
                &&& (info.in_archetype_id as int) < a[info.archetype_id as int].entities@.len()
                &&& a[info.archetype_id as int].entities@[info.in_archetype_id as int]@ == kk
            } by {
                assert(a[t[kk].archetype_id as int] == a0[t[kk].archetype_id as int]);
            }
            assert forall|x: int, i: int| 0 <= x < a.len() && 0 <= i < a[x].entities@.len()
                implies {
                    &&& t.contains_key(#[trigger] a[x].entities@[i]@)
                    &&& t[a[x].entities@[i]@] == EntityInfo { archetype_id: x as u32, in_archetype_id: i as u32 }
                } by {
                assert(a[x] == a0[x]);
                assert(a0[x].entities@[i] == a[x].entities@[i]);
            }
            let old_world = old(self);
            assert forall|kk: u64| #[trigger] self.view().contains_key(kk) implies self.view()[kk]
                == old_world.view()[kk] by {
                let info = t[kk];
                let x = info.archetype_id as int;
                assert(a[x] == a0[x]);
                assert(a0[x].wf());
                assert forall|j: int| 0 <= j < a0[x].types@.len() implies #[trigger] c[a0[x].types@[j] as int].list@[a0[x].storages@[j].0 as int]@[info.in_archetype_id as int]
                    == c0[a0[x].types@[j] as int].list@[a0[x].storages@[j].0 as int]@[info.in_archetype_id as int] by {
                    assert(segment_fits(a0[x], j, c0));
                }
                Self::lemma_same_components(self, old_world, kk);
            }
            assert(self.view() =~= old_world.view());
            assert(self.archeman.wf());
            assert(segments_sized(a, c));
            assert(segments_owned(a));
            assert(columns_bounded(a, c));
            assert(entities_placed(t, a));
            assert(members_known(t, a));
        }
        archetype_id
    }

    /// Appends each bundle component to its segment of archetype `a`, whose
    /// type set is the bundle's.
    fn push_bundle(&mut self, a: ArchetypeID, bundle: Vec<(u32, V)>)
        requires
            old(self).wf(),
            (a.0 as int) < old(self).archeman.archetypes@.len(),
            distinct_types(bundle@),
            forall|t: u32|
                old(self).archeman.archetypes@[a.0 as int].types@.contains(t) == in_bundle(bundle@, t),
        ensures
            final(self).entities == old(self).entities,
            final(self).archeman == old(self).archeman,
            final(self).resources == old(self).resources,
            final(self).changes_prev == old(self).changes_prev,
            final(self).changes_new == old(self).changes_new,
            final(self).columns@.len() == old(self).columns@.len(),
            forall|u: int|
                0 <= u < old(self).columns@.len() ==> #[trigger] final(self).columns@[u].list@.len()
                    == old(self).columns@[u].list@.len(),
            ({
                let arch = old(self).archeman.archetypes@[a.0 as int];
                forall|k: int|
                    0 <= k < arch.types@.len() ==> #[trigger] final(self).columns@[arch.types@[k] as int].list@[arch.storages@[k].0 as int]@
                        == old(self).columns@[arch.types@[k] as int].list@[arch.storages@[k].0 as int]@.push(
                        bundle_map(bundle@)[arch.types@[k]],
                    )
            }),
            forall|u: int, s: int|
                0 <= u < old(self).columns@.len() && 0 <= s < old(self).columns@[u].list@.len()
                    && !owns_segment(old(self).archeman.archetypes@[a.0 as int], u, s)
                    ==> #[trigger] final(self).columns@[u].list@[s] == old(self).columns@[u].list@[s],
    {
        let ghost b0 = bundle@;
        let ghost c1 = self.columns@;
        let ghost arch = self.archeman.archetypes@[a.0 as int];
        proof {
            assert(arch.wf());
        }
        let mut rest = bundle;
        while rest.len() > 0
            invariant
                old(self).wf(),
                self.entities == old(self).entities,
                self.archeman == old(self).archeman,
                self.resources == old(self).resources,
                self.changes_prev == old(self).changes_prev,
                self.changes_new == old(self).changes_new,
                c1 == old(self).columns@,
                arch == old(self).archeman.archetypes@[a.0 as int],
                arch.wf(),
                (a.0 as int) < self.archeman.archetypes@.len(),
                distinct_types(b0),
                forall|t: u32| arch.types@.contains(t) == in_bundle(b0, t),
                rest@.len() <= b0.len(),
                rest@ == b0.subrange(0, rest@.len() as int),
                self.columns@.len() == c1.len(),
                forall|u: int|
                    0 <= u < c1.len() ==> #[trigger] self.columns@[u].list@.len() == c1[u].list@.len(),
                forall|k: int|
                    0 <= k < arch.types@.len() ==> #[trigger] self.columns@[arch.types@[k] as int].list@[arch.storages@[k].0 as int]@
                        == if (exists|j: int| rest@.len() <= j < b0.len() && b0[j].0 == arch.types@[k]) {
                        c1[arch.types@[k] as int].list@[arch.storages@[k].0 as int]@.push(bundle_map(b0)[arch.types@[k]])
                    } else {
                        c1[arch.types@[k] as int].list@[arch.storages@[k].0 as int]@
                    },
                forall|u: int, s: int|
                    0 <= u < c1.len() && 0 <= s < c1[u].list@.len() && !owns_segment(arch, u, s)
                        ==> #[trigger] self.columns@[u].list@[s] == c1[u].list@[s],
            decreases rest@.len(),
        {
            let ghost before = self.columns@;
            let ghost rb = rest@;
            let (t, value) = rest.pop().unwrap();
            let ghost j = rest@.len() as int;
            proof {
                assert(rb[j] == b0[j]);
                assert(b0[j] == (t, value));
                assert(0 <= j < b0.len() && b0[j].0 == t);
                assert(in_bundle(b0, t));
                lemma_bundle_value(b0, j);
            }
            let storage = self.archeman.find_storage(a, t).unwrap();
            let ghost kt = slot(arch.types@, t);
            proof {
                assert(arch.types@.contains(t));
                assert(arch.storages@[kt] == storage);
                assert(segment_fits(arch, kt, c1));
            }
            let mut column = ComponentList::new();
            std::mem::swap(&mut column, &mut self.columns[t as usize]);
            column.add_to_storage(storage, value);
            let ghost pushed = column;
            std::mem::swap(&mut column, &mut self.columns[t as usize]);
            proof {
                assert(self.columns@ == before.update(t as int, pushed));
                assert forall|u: int| 0 <= u < c1.len() implies #[trigger] self.columns@[u].list@.len()
                    == c1[u].list@.len() by {
                    assert(before[u].list@.len() == c1[u].list@.len());
                }
                assert forall|u: int, s: int|
                    0 <= u < c1.len() && 0 <= s < c1[u].list@.len() && !owns_segment(arch, u, s)
                    implies #[trigger] self.columns@[u].list@[s] == c1[u].list@[s] by {
                    assert(before[u].list@[s] == c1[u].list@[s]);
                    if u == t && s == storage.0 {
                        assert(arch.types@[kt] == u && arch.storages@[kt].0 == s);
                    }
                }
                assert forall|k: int| 0 <= k < arch.types@.len() implies #[trigger] self.columns@[arch.types@[k] as int].list@[arch.storages@[k].0 as int]@
                    == if (exists|jj: int| rest@.len() <= jj < b0.len() && b0[jj].0 == arch.types@[k]) {
                    c1[arch.types@[k] as int].list@[arch.storages@[k].0 as int]@.push(bundle_map(b0)[arch.types@[k]])
                } else {
                    c1[arch.types@[k] as int].list@[arch.storages@[k].0 as int]@
                } by {
                    let u = arch.types@[k] as int;
                    let sk = arch.storages@[k].0 as int;
                    let was = exists|jj: int| rest@.len() + 1 <= jj < b0.len() && b0[jj].0 == arch.types@[k];
                    let now = exists|jj: int| rest@.len() <= jj < b0.len() && b0[jj].0 == arch.types@[k];
                    assert(before[u].list@[sk]@ == if was {
                        c1[u].list@[sk]@.push(bundle_map(b0)[arch.types@[k]])
                    } else {
                        c1[u].list@[sk]@
                    });
                    if k == kt {
                        assert(now);
                        assert(!was) by {
                            if was {
                                let jj = choose|jj: int| rest@.len() + 1 <= jj < b0.len() && b0[jj].0 == arch.types@[k];
                                assert(b0[jj].0 != b0[j].0);
                            }
                        }
                        assert(before[u].list@[sk]@ == c1[u].list@[sk]@);
                        assert(u == t as int);
                        assert(sk == storage.0 as int);
                        assert(self.columns@[u] == pushed);
                        assert(pushed.list@[sk]@ == before[u].list@[sk]@.push(value));
                        assert(bundle_map(b0)[arch.types@[k]] == value);
                    } else {
                        assert(arch.types@[k] != t) by {
                            if k < kt {
                                assert(arch.types@[k] < arch.types@[kt]);
                            } else {
                                assert(arch.types@[kt] < arch.types@[k]);
                            }
                        }
                        assert(segment_fits(arch, k, c1));
                        assert(self.columns@[u] == before[u]);
                        if now {
                            let jj = choose|jj: int| rest@.len() <= jj < b0.len() && b0[jj].0 == arch.types@[k];
                            assert(jj != j);
                            assert(was);
                        }
                        if was {
                            let jj = choose|jj: int| rest@.len() + 1 <= jj < b0.len() && b0[jj].0 == arch.types@[k];
                            assert(now);
                        }
                    }
                }
                assert(rest@ =~= b0.subrange(0, rest@.len() as int));
            }
        }
        proof {
            assert forall|k: int| 0 <= k < arch.types@.len() implies in_bundle(b0, #[trigger] arch.types@[k]) by {
                assert(arch.types@.contains(arch.types@[k]));
            }
        }
    }

    /// An archetype has no more members than there are live entities.
    proof fn lemma_members_bounded(&self, x: int)
        requires
            self.wf(),
            0 <= x < self.archeman.archetypes@.len(),
        ensures
            self.archeman.archetypes@[x].entities@.len() <= slots_of(self.entities).len(),
    {
        let t = slots_of(self.entities);
        let ents = self.archeman.archetypes@[x].entities@;
        let keys = ents.map_values(|e: EntityID| e@);
        assert forall|i: int, j: int| 0 <= i < keys.len() && 0 <= j < keys.len() && i != j
            implies keys[i] != keys[j] by {
            assert(self.archeman.archetypes@[x].wf());
            assert(keys[i] == self.archeman.archetypes@[x].entities@[i]@);
            assert(keys[j] == self.archeman.archetypes@[x].entities@[j]@);
            assert(t[keys[i]].in_archetype_id == i as u32);
            assert(t[keys[j]].in_archetype_id == j as u32);
        }
        assert(keys.no_duplicates());
        keys.unique_seq_to_set();
        assert forall|k: u64| keys.to_set().contains(k) implies t.dom().contains(k) by {
            let i = choose|i: int| 0 <= i < keys.len() && keys[i] == k;
            assert(keys[i] == self.archeman.archetypes@[x].entities@[i]@);
        }
        vstd::set_lib::lemma_len_subset(keys.to_set(), t.dom());
    }

    /// Spawns an entity with a bundle of components of distinct registered
    /// types.
    pub fn spawn(&mut self, bundle: Vec<(u32, V)>) -> (r: EntityID)
        requires
            old(self).wf(),
            distinct_types(bundle@),
            forall|k: int|
                0 <= k < bundle@.len() ==> (#[trigger] bundle@[k].0 as int) < old(self).component_type_count(),
            old(self).view().len() < MAX_ENTITIES,
            old(self).archetype_count() < u32::MAX,
        ensures
            final(self).wf(),
            !old(self).view().contains_key(r@),
            final(self).view() == old(self).view().insert(r@, bundle_map(bundle@)),
            final(self).view().len() == old(self).view().len() + 1,
            final(self).archetype_count() <= old(self).archetype_count() + 1,
            (exists|x: int|
                0 <= x < old(self).archetype_types().len() && #[trigger] old(self).archetype_types()[x].to_set()
                    == bundle_types(bundle@)) ==> final(self).archetype_types() == old(self).archetype_types(),
            !(exists|x: int|
                0 <= x < old(self).archetype_types().len() && #[trigger] old(self).archetype_types()[x].to_set()
                    == bundle_types(bundle@)) ==> final(self).archetype_types() == old(self).archetype_types().push(
                final(self).archetype_types().last(),
            ),
            final(self).archetype_types()[final(self).archetype_of(r@) as int].to_set() == bundle_types(bundle@),
            final(self).place_of(r@) + 1 == final(self).archetype_len(final(self).archetype_of(r@) as int),
            (final(self).archetype_of(r@) as int) < old(self).archetype_count() ==> final(self).archetype_len(
                final(self).archetype_of(r@) as int,
            ) == old(self).archetype_len(final(self).archetype_of(r@) as int) + 1,
            forall|k: u64|
                #[trigger] old(self).view().contains_key(k) ==> final(self).archetype_of(k) == old(self).archetype_of(k)
                    && final(self).place_of(k) == old(self).place_of(k),
            forall|x: int|
                0 <= x < old(self).archetype_count() && x != final(self).archetype_of(r@) ==> #[trigger] final(self).archetype_len(x)
                    == old(self).archetype_len(x),
            final(self).component_type_count() == old(self).component_type_count(),
            final(self).resource_values() == old(self).resource_values(),
            final(self).resource_count() == old(self).resource_count(),
            final(self).changed_last_cycle() == old(self).changed_last_cycle(),
            final(self).changed_this_cycle() == old(self).changed_this_cycle(),
    {
        proof {
            self.lemma_view_dom();
        }
        let ghost a_old = self.archeman.archetypes@;
        let types = sorted_types(&bundle);
        let ghost tys = types@;
        proof {
            assert forall|k: int| 0 <= k < types@.len() implies (types@[k] as int) < self.columns@.len() by {
                assert(types@.contains(types@[k]));
                let j = choose|j: int| 0 <= j < bundle@.len() && bundle@[j].0 == types@[k];
                assert(bundle@[j].0 == types@[k]);
            }
        }
        let found = self.archeman.find_archetype(&types);
        let a = match found {
            Some(id) => id,
            None => self.create_archetype(types),
        };
        let ghost w1 = *self;
        proof {
            w1.lemma_view_dom();
            assert(w1.archeman.archetypes@[a.0 as int].types@ == types@);
        }
        self.push_bundle(a, bundle);
        proof {
            w1.lemma_members_bounded(a.0 as int);
            assert(w1.archeman.archetypes@[a.0 as int].wf());
        }
        let idx = self.archeman.archetypes[a.0 as usize].entities.len() as u32;
        let info = EntityInfo { archetype_id: a.0, in_archetype_id: idx };
        let ghost c2 = self.columns@;
        let raw = self.entities.insert(info);
        let entity = EntityID::from_raw(raw);
        self.archeman.register_entity(a, entity);
        proof {
            let x = a.0 as int;
            let n = idx as int;
            let b0 = bundle@;
            let t1 = slots_of(w1.entities);
            let a1 = w1.archeman.archetypes@;
            let c1 = w1.columns@;
            let t = slots_of(self.entities);
            let aa = self.archeman.archetypes@;
            let c = self.columns@;
            assert(c == c2);
            assert(entity@ == raw);
            assert(t == t1.insert(raw, info));
            assert(a1[x].wf());
            assert(aa.len() == a1.len());
            assert forall|y: int| 0 <= y < aa.len() implies (#[trigger] aa[y]).types@ == a1[y].types@
                && aa[y].storages@ == a1[y].storages@ && (y != x ==> aa[y] == a1[y]) by {}
            // entities placed
            assert forall|k: u64| t.contains_key(k) implies {
                let i = t[k];
                &&& (i.archetype_id as int) < aa.len()
                &&& (i.in_archetype_id as int) < aa[i.archetype_id as int].entities@.len()
                &&& aa[i.archetype_id as int].entities@[i.in_archetype_id as int]@ == k
            } by {
                if k != raw {
                    let i = t1[k];
                    assert(t[k] == i);
                    let y = i.archetype_id as int;
                    assert(a1[y].entities@[i.in_archetype_id as int]@ == k);
                    if y == x {
                        assert(aa[y].entities@[i.in_archetype_id as int] == a1[y].entities@[i.in_archetype_id as int]);
                    }
                }
            }
            assert(entities_placed(t, aa));
            // members known
            assert forall|y: int, i: int| 0 <= y < aa.len() && 0 <= i < aa[y].entities@.len() implies {
                &&& t.contains_key(#[trigger] aa[y].entities@[i]@)
                &&& t[aa[y].entities@[i]@] == EntityInfo { archetype_id: y as u32, in_archetype_id: i as u32 }
            } by {
                if y == x && i == n {
                    assert(aa[y].entities@[i] == entity);
                } else {
                    if y == x {
                        assert(aa[y].entities@[i] == a1[y].entities@[i]);
                    }
                    assert(a1[y].entities@[i] == aa[y].entities@[i]);
                    let k = a1[y].entities@[i]@;
                    assert(t1.contains_key(k));
                    assert(k != raw);
                }
            }
            assert(members_known(t, aa));
            // segments
            assert forall|y: int, k: int| 0 <= y < aa.len() && 0 <= k < aa[y].types@.len()
                implies #[trigger] segment_fits(aa[y], k, c) by {
                assert(segment_fits(a1[y], k, c1));
                let u = a1[y].types@[k] as int;
                let sk = a1[y].storages@[k].0 as int;
                if y == x {
                    assert(c[u].list@[sk]@ == c1[u].list@[sk]@.push(bundle_map(b0)[a1[x].types@[k]]));
                } else {
                    assert(!owns_segment(a1[x], u, sk)) by {
                        if owns_segment(a1[x], u, sk) {
                            let kk = choose|kk: int| 0 <= kk < a1[x].types@.len() && a1[x].types@[kk] == u && a1[x].storages@[kk].0 == sk;
                            assert(segment_of(a1[x], kk) == segment_of(a1[y], k));
                        }
                    }
                    assert(c[u].list@[sk] == c1[u].list@[sk]);
                }
            }
            assert(segments_sized(aa, c));
            assert forall|x1: int, k1: int, x2: int, k2: int|
                0 <= x1 < aa.len() && 0 <= k1 < aa[x1].types@.len() && 0 <= x2 < aa.len() && 0 <= k2
                    < aa[x2].types@.len() && #[trigger] segment_of(aa[x1], k1) == #[trigger] segment_of(aa[x2], k2)
                implies x1 == x2 && k1 == k2 by {
                assert(segment_of(a1[x1], k1) == segment_of(a1[x2], k2));
            }
            assert(segments_owned(aa));
            assert(columns_bounded(aa, c));
            // view
            let final_world = *self;
            assert forall|k: u64| #[trigger] self.view().contains_key(k) && k != raw implies self.view()[k]
                == w1.view()[k] by {
                let i = t1[k];
                let y = i.archetype_id as int;
                assert(a1[y].wf());
                assert forall|j: int| 0 <= j < a1[y].types@.len() implies #[trigger] c[a1[y].types@[j] as int].list@[a1[y].storages@[j].0 as int]@[i.in_archetype_id as int]
                    == c1[a1[y].types@[j] as int].list@[a1[y].storages@[j].0 as int]@[i.in_archetype_id as int] by {
                    assert(segment_fits(a1[y], j, c1));
                    let u = a1[y].types@[j] as int;
                    let sk = a1[y].storages@[j].0 as int;
                    if y == x {
                        assert(c[u].list@[sk]@ == c1[u].list@[sk]@.push(bundle_map(b0)[a1[x].types@[j]]));
                    } else {
                        assert(!owns_segment(a1[x], u, sk)) by {
                            if owns_segment(a1[x], u, sk) {
                                let kk = choose|kk: int| 0 <= kk < a1[x].types@.len() && a1[x].types@[kk] == u && a1[x].storages@[kk].0 == sk;
                                assert(segment_of(a1[x], kk) == segment_of(a1[y], j));
                            }
                        }
                    }
                }
                Self::lemma_same_components(&final_world, &w1, k);
            }
            assert forall|u: u32| #[trigger] self.components_of(raw).contains_key(u) == bundle_map(b0).contains_key(u) by {}
            assert forall|u: u32| #[trigger] bundle_map(b0).contains_key(u) implies self.components_of(raw)[u] == bundle_map(b0)[u] by {
                let kk = slot(a1[x].types@, u);
                assert(a1[x].types@.contains(u));
                assert(segment_fits(a1[x], kk, c1));
                let sk = a1[x].storages@[kk].0 as int;
                assert(c[u as int].list@[sk]@ == c1[u as int].list@[sk]@.push(bundle_map(b0)[a1[x].types@[kk]]));
            }
            assert(self.components_of(raw) =~= bundle_map(b0));
            assert(self.view() =~= w1.view().insert(raw, bundle_map(b0)));
            assert(w1.view() == old(self).view());
            // counts and placement
            self.lemma_view_dom();
            assert(t.dom() =~= t1.dom().insert(raw));
            assert(tys.to_set() =~= bundle_types(b0)) by {
                assert forall|u: u32| tys.to_set().contains(u) == bundle_types(b0).contains(u) by {
                    assert(tys.contains(u) == in_bundle(b0, u));
                }
            }
            let ot = old(self).archetype_types();
            let ft = self.archetype_types();
            assert(ft.len() == a1.len());
            assert forall|y: int| 0 <= y < a1.len() implies ft[y] == a1[y].types@ by {}
            if found.is_some() {
                assert(a1 == a_old);
                assert(ft =~= ot);
                assert(ot[x].to_set() == bundle_types(b0));
            } else {
                assert(a1.len() == a_old.len() + 1);
                assert(ft =~= ot.push(tys));
                assert forall|y: int| 0 <= y < ot.len() implies #[trigger] ot[y].to_set() != bundle_types(b0) by {
                    assert(a_old[y].wf());
                    if ot[y].to_set() == bundle_types(b0) {
                        lemma_sorted_same_set(a_old[y].types@, tys);
                    }
                }
            }
        }
        entity
    }

    /// Swap-removes place `i` from every segment of archetype `a`.
    fn swap_remove_segments(&mut self, a: ArchetypeID, i: u32)
        requires
            old(self).wf(),
            (a.0 as int) < old(self).archeman.archetypes@.len(),
            (i as int) < old(self).archeman.archetypes@[a.0 as int].entities@.len(),
        ensures
            final(self).entities == old(self).entities,
            final(self).archeman == old(self).archeman,
            final(self).resources == old(self).resources,
            final(self).changes_prev == old(self).changes_prev,
            final(self).changes_new == old(self).changes_new,
            final(self).columns@.len() == old(self).columns@.len(),
            forall|u: int|
                0 <= u < old(self).columns@.len() ==> #[trigger] final(self).columns@[u].list@.len()
                    == old(self).columns@[u].list@.len(),
            ({
                let arch = old(self).archeman.archetypes@[a.0 as int];
                forall|k: int|
                    0 <= k < arch.types@.len() ==> #[trigger] final(self).columns@[arch.types@[k] as int].list@[arch.storages@[k].0 as int]@
                        == swap_removed(old(self).columns@[arch.types@[k] as int].list@[arch.storages@[k].0 as int]@, i as int)
            }),
            forall|u: int, s: int|
                0 <= u < old(self).columns@.len() && 0 <= s < old(self).columns@[u].list@.len()
                    && !owns_segment(old(self).archeman.archetypes@[a.0 as int], u, s)
                    ==> #[trigger] final(self).columns@[u].list@[s] == old(self).columns@[u].list@[s],
    {
        let ghost c1 = self.columns@;
        let ghost arch = self.archeman.archetypes@[a.0 as int];
        proof {
            assert(arch.wf());
        }
        let len = self.archeman.archetypes[a.0 as usize].types.len();
        let mut k: usize = 0;
        while k < len
            invariant
                old(self).wf(),
                self.entities == old(self).entities,
                self.archeman == old(self).archeman,
                self.resources == old(self).resources,
                self.changes_prev == old(self).changes_prev,
                self.changes_new == old(self).changes_new,
                c1 == old(self).columns@,
                arch == old(self).archeman.archetypes@[a.0 as int],
                arch.wf(),
                (a.0 as int) < self.archeman.archetypes@.len(),
                (i as int) < arch.entities@.len(),
                len == arch.types@.len(),
                k <= len,
                self.columns@.len() == c1.len(),
                forall|u: int|
                    0 <= u < c1.len() ==> #[trigger] self.columns@[u].list@.len() == c1[u].list@.len(),
                forall|kk: int|
                    0 <= kk < arch.types@.len() ==> #[trigger] self.columns@[arch.types@[kk] as int].list@[arch.storages@[kk].0 as int]@
                        == if kk < k {
                        swap_removed(c1[arch.types@[kk] as int].list@[arch.storages@[kk].0 as int]@, i as int)
                    } else {
                        c1[arch.types@[kk] as int].list@[arch.storages@[kk].0 as int]@
                    },
                forall|u: int, s: int|
                    0 <= u < c1.len() && 0 <= s < c1[u].list@.len() && !owns_segment(arch, u, s)
                        ==> #[trigger] self.columns@[u].list@[s] == c1[u].list@[s],
            decreases len - k,
        {
            let ghost before = self.columns@;
            let t = self.archeman.archetypes[a.0 as usize].types[k];
            let storage = self.archeman.archetypes[a.0 as usize].storages[k];
            proof {
                assert(segment_fits(arch, k as int, c1));
                assert(before[t as int].list@[storage.0 as int]@ == c1[t as int].list@[storage.0 as int]@);
            }
            let mut column = ComponentList::new();
            std::mem::swap(&mut column, &mut self.columns[t as usize]);
            column.swap_remove(storage, i);
            let ghost removed = column;
            std::mem::swap(&mut column, &mut self.columns[t as usize]);
            proof {
                assert(self.columns@ == before.update(t as int, removed));
                assert forall|u: int| 0 <= u < c1.len() implies #[trigger] self.columns@[u].list@.len()
                    == c1[u].list@.len() by {
                    assert(before[u].list@.len() == c1[u].list@.len());
                }
                assert forall|u: int, s: int|
                    0 <= u < c1.len() && 0 <= s < c1[u].list@.len() && !owns_segment(arch, u, s)
                    implies #[trigger] self.columns@[u].list@[s] == c1[u].list@[s] by {
                    assert(before[u].list@[s] == c1[u].list@[s]);
                    if u == t && s == storage.0 {
                        assert(arch.types@[k as int] == u && arch.storages@[k as int].0 == s);
                    }
                }
                assert forall|kk: int| 0 <= kk < arch.types@.len() implies #[trigger] self.columns@[arch.types@[kk] as int].list@[arch.storages@[kk].0 as int]@
                    == if kk < k + 1 {
                    swap_removed(c1[arch.types@[kk] as int].list@[arch.storages@[kk].0 as int]@, i as int)
                } else {
                    c1[arch.types@[kk] as int].list@[arch.storages@[kk].0 as int]@
                } by {
                    let u = arch.types@[kk] as int;
                    let sk = arch.storages@[kk].0 as int;
                    assert(segment_fits(arch, kk, c1));
                    assert(before[u].list@[sk]@ == if kk < k {
                        swap_removed(c1[u].list@[sk]@, i as int)
                    } else {
                        c1[u].list@[sk]@
                    });
                    if kk != k {
                        assert(arch.types@[kk] != t) by {
                            if kk < k {
                                assert(arch.types@[kk] < arch.types@[k as int]);
                            } else {
                                assert(arch.types@[k as int] < arch.types@[kk]);
                            }
                        }
                        assert(self.columns@[u] == before[u]);
                    } else {
                        assert(self.columns@[u] == removed);
                    }
                }
            }
            k = k + 1;
        }
    }

    /// Despawns an entity: false if it is not live. The archetype's last
    /// member moves into the freed place.
    pub fn despawn(&mut self, entity: EntityID) -> (r: bool)
        requires
            old(self).wf(),
        ensures
            final(self).wf(),
            r == old(self).view().contains_key(entity@),
            final(self).view() == old(self).view().remove(entity@),
            !r ==> *final(self) == *old(self),
            r ==> final(self).view().len() + 1 == old(self).view().len(),
            r ==> final(self).archetype_len(old(self).archetype_of(entity@) as int) + 1 == old(self).archetype_len(
                old(self).archetype_of(entity@) as int,
            ),
            forall|x: int|
                0 <= x < old(self).archetype_count() && x != old(self).archetype_of(entity@) ==> #[trigger] final(self).archetype_len(x)
                    == old(self).archetype_len(x),
            r ==> forall|k: u64|
                #[trigger] final(self).view().contains_key(k) ==> final(self).archetype_of(k) == old(self).archetype_of(k)
                    && final(self).place_of(k) == (if old(self).archetype_of(k) == old(self).archetype_of(entity@)
                    && old(self).place_of(k) + 1 == old(self).archetype_len(old(self).archetype_of(entity@) as int) {
                    old(self).place_of(entity@)
                } else {
                    old(self).place_of(k)
                }),
            final(self).component_type_count() == old(self).component_type_count(),
            final(self).archetype_types() == old(self).archetype_types(),
            final(self).resource_values() == old(self).resource_values(),
            final(self).changed_last_cycle() == old(self).changed_last_cycle(),
            final(self).changed_this_cycle() == old(self).changed_this_cycle(),
    {
        let info = match self.entities.get(entity.to_raw()) {
            Some(info) => info,
            None => {
                assert(self.view() =~= self.view().remove(entity@));
                return false;
            },
        };
        let ghost w0 = *self;
        let ghost key = entity@;
        let ghost x = info.archetype_id as int;
        let ghost i = info.in_archetype_id as int;
        proof {
            assert(w0.archeman.archetypes@[x].wf());
        }
        self.swap_remove_segments(ArchetypeID(info.archetype_id), info.in_archetype_id);
        let a = info.archetype_id as usize;
        let last = self.archeman.archetypes[a].entities.len() - 1;
        let last_id = self.archeman.archetypes[a].entities[last];
        let ghost lk = last_id@;
        proof {
            assert(w0.archeman.archetypes@[x].entities@[last as int] == last_id);
        }
        self.entities.set(
            last_id.to_raw(),
            EntityInfo { archetype_id: info.archetype_id, in_archetype_id: info.in_archetype_id },
        );
        let mut arch = ArchetypeInfo { entities: Vec::new(), types: Vec::new(), storages: Vec::new() };
        std::mem::swap(&mut arch, &mut self.archeman.archetypes[a]);
        arch.entities.swap_remove(info.in_archetype_id as usize);
        std::mem::swap(&mut arch, &mut self.archeman.archetypes[a]);
        self.entities.remove(entity.to_raw());
        proof {
            let t0 = slots_of(w0.entities);
            let a0 = w0.archeman.archetypes@;
            let c0 = w0.columns@;
            let t = slots_of(self.entities);
            let aa = self.archeman.archetypes@;
            let c = self.columns@;
            let ll = last as int;
            let moved = EntityInfo { archetype_id: info.archetype_id, in_archetype_id: info.in_archetype_id };
            assert(t0.contains_key(key) && t0[key] == info);
            assert(a0[x].entities@[i]@ == key);
            assert(t0.contains_key(lk) && t0[lk] == EntityInfo { archetype_id: x as u32, in_archetype_id: ll as u32 });
            assert(t == t0.insert(lk, moved).remove(key));
            assert(aa.len() == a0.len());
            assert(aa[x].entities@ == swap_removed(a0[x].entities@, i));
            assert forall|y: int| 0 <= y < aa.len() implies (#[trigger] aa[y]).types@ == a0[y].types@
                && aa[y].storages@ == a0[y].storages@ && (y != x ==> aa[y] == a0[y]) by {}
            // archetype manager
            assert forall|y: int| 0 <= y < aa.len() implies #[trigger] aa[y].wf() by {
                assert(a0[y].wf());
            }
            assert forall|y: int, z: int| 0 <= y < aa.len() && 0 <= z < aa.len() && y != z
                implies (#[trigger] aa[y]).types@ != (#[trigger] aa[z]).types@ by {
                assert(a0[y].types@ != a0[z].types@);
            }
            assert(self.archeman.wf());
            // entities placed
            assert forall|k: u64| t.contains_key(k) implies {
                let e = t[k];
                &&& (e.archetype_id as int) < aa.len()
                &&& (e.in_archetype_id as int) < aa[e.archetype_id as int].entities@.len()
                &&& aa[e.archetype_id as int].entities@[e.in_archetype_id as int]@ == k
            } by {
                if k == lk {
                    assert(i != ll);
                    assert(aa[x].entities@[i] == a0[x].entities@[ll]);
                } else {
                    let e = t0[k];
                    let y = e.archetype_id as int;
                    let j = e.in_archetype_id as int;
                    assert(a0[y].entities@[j]@ == k);
                    if y == x {
                        assert(j != i);
                        assert(j != ll);
                        assert(aa[x].entities@[j] == a0[x].entities@[j]);
                    }
                }
            }
            assert(entities_placed(t, aa));
            // members known
            assert forall|y: int, j: int| 0 <= y < aa.len() && 0 <= j < aa[y].entities@.len() implies {
                &&& t.contains_key(#[trigger] aa[y].entities@[j]@)
                &&& t[aa[y].entities@[j]@] == EntityInfo { archetype_id: y as u32, in_archetype_id: j as u32 }
            } by {
                if y == x && j == i {
                    assert(aa[y].entities@[j] == a0[x].entities@[ll]);
                    assert(lk != key);
                } else {
                    assert(aa[y].entities@[j] == a0[y].entities@[j]);
                    let k = a0[y].entities@[j]@;
                    assert(t0[k] == EntityInfo { archetype_id: y as u32, in_archetype_id: j as u32 });
                    assert(k != key);
                    assert(k != lk) by {
                        if y == x {
                            assert(j != ll);
                        }
                    }
                }
            }
            assert(members_known(t, aa));
            // segments
            assert forall|y: int, k: int| 0 <= y < aa.len() && 0 <= k < aa[y].types@.len()
                implies #[trigger] segment_fits(aa[y], k, c) by {
                assert(segment_fits(a0[y], k, c0));
                let u = a0[y].types@[k] as int;
                let sk = a0[y].storages@[k].0 as int;
                if y != x {
                    assert(!owns_segment(a0[x], u, sk)) by {
                        if owns_segment(a0[x], u, sk) {
                            let kk = choose|kk: int| 0 <= kk < a0[x].types@.len() && a0[x].types@[kk] == u && a0[x].storages@[kk].0 == sk;
                            assert(segment_of(a0[x], kk) == segment_of(a0[y], k));
                        }
                    }
                    assert(c[u].list@[sk] == c0[u].list@[sk]);
                }
            }
            assert(segments_sized(aa, c));
            assert forall|x1: int, k1: int, x2: int, k2: int|
                0 <= x1 < aa.len() && 0 <= k1 < aa[x1].types@.len() && 0 <= x2 < aa.len() && 0 <= k2
                    < aa[x2].types@.len() && #[trigger] segment_of(aa[x1], k1) == #[trigger] segment_of(aa[x2], k2)
                implies x1 == x2 && k1 == k2 by {
                assert(segment_of(a0[x1], k1) == segment_of(a0[x2], k2));
            }
            assert(segments_owned(aa));
            assert(columns_bounded(aa, c));
            assert(t.dom() =~= t0.dom().remove(key));
            vstd::set_lib::lemma_len_subset(t.dom(), t0.dom());
            assert(self.wf());
            // view
            let final_world = *self;
            assert forall|k: u64| #[trigger] self.view().contains_key(k) implies self.view()[k]
                == w0.view()[k] by {
                let e0 = t0[k];
                let e1 = t[k];
                let y = e0.archetype_id as int;
                assert(a0[y].wf());
                assert(a0[y].entities@[e0.in_archetype_id as int]@ == k);
                assert forall|j: int| 0 <= j < a0[y].types@.len() implies #[trigger] c[a0[y].types@[j] as int].list@[a0[y].storages@[j].0 as int]@[e1.in_archetype_id as int]
                    == c0[a0[y].types@[j] as int].list@[a0[y].storages@[j].0 as int]@[e0.in_archetype_id as int] by {
                    assert(segment_fits(a0[y], j, c0));
                    let u = a0[y].types@[j] as int;
                    let sk = a0[y].storages@[j].0 as int;
                    if y != x {
                        assert(!owns_segment(a0[x], u, sk)) by {
                            if owns_segment(a0[x], u, sk) {
                                let kk = choose|kk: int| 0 <= kk < a0[x].types@.len() && a0[x].types@[kk] == u && a0[x].storages@[kk].0 == sk;
                                assert(segment_of(a0[x], kk) == segment_of(a0[y], j));
                            }
                        }
                    } else {
                        assert(e0.in_archetype_id as int != i);
                        if k != lk {
                            assert(e0.in_archetype_id as int != ll);
                        }
                    }
                }
                Self::lemma_same_components(&final_world, &w0, k);
            }
            assert(self.view() =~= w0.view().remove(key));
            assert(self.archetype_types() =~= w0.archetype_types());
            self.lemma_view_dom();
            w0.lemma_view_dom();
            assert forall|k: u64| #[trigger] self.view().contains_key(k) implies self.archetype_of(k) == w0.archetype_of(k)
                && self.place_of(k) == (if w0.archetype_of(k) == w0.archetype_of(key)
                && w0.place_of(k) + 1 == w0.archetype_len(w0.archetype_of(key) as int) {
                w0.place_of(key)
            } else {
                w0.place_of(k)
            }) by {
                if k != lk {
                    let e = t0[k];
                    assert(a0[e.archetype_id as int].entities@[e.in_archetype_id as int]@ == k);
                }
            }
            assert forall|y: int| 0 <= y < a0.len() && y != x implies #[trigger] self.archetype_len(y) == w0.archetype_len(y) by {
                assert(aa[y] == a0[y]);
            }
        }
        true
    }

    /// The component of type `t` of an entity, to change in place; none if
    /// the entity is not live or lacks the type.
    pub fn get_mut(&mut self, entity: EntityID, t: u32) -> (r: Option<&mut V>)
        requires
            old(self).wf(),
        ensures
            r is Some == (old(self).view().contains_key(entity@) && old(self).view()[entity@].contains_key(t)),
            r is None ==> *final(self) == *old(self),
            r matches Some(x) ==> {
                &&& *x == old(self).view()[entity@][t]
                &&& old(self).value_replaced(*final(self), entity@, t, *final(x))
                &&& old(self).value_replaced(*final(self), entity@, t, *final(x)) ==> {
                    &&& final(self).wf()
                    &&& final(self).view() == old(self).view().insert(entity@, old(self).view()[entity@].insert(t, *final(x)))
                    &&& final(self).archetype_types() == old(self).archetype_types()
                    &&& final(self).component_type_count() == old(self).component_type_count()
                    &&& final(self).resource_values() == old(self).resource_values()
                    &&& final(self).resource_count() == old(self).resource_count()
                    &&& final(self).changed_last_cycle() == old(self).changed_last_cycle()
                    &&& final(self).changed_this_cycle() == old(self).changed_this_cycle()
                }
            },
    {
        let info = match self.entities.get(entity.to_raw()) {
            Some(info) => info,
            None => return None,
        };
        let storage = match self.archeman.find_storage(ArchetypeID(info.archetype_id), t) {
            Some(s) => s,
            None => return None,
        };
        let ghost arch = self.archeman.archetypes@[info.archetype_id as int];
        proof {
            assert(arch.wf());
            let k = slot(arch.types@, t);
            assert(arch.storages@[k] == storage);
            assert(segment_fits(arch, k, self.columns@));
        }
        let ghost w0 = *self;
        proof {
            Self::lemma_value_replaced(w0, entity@, t);
        }
        let column = &mut self.columns[t as usize];
        let segment = &mut column.list[storage.0 as usize];
        let elem = &mut segment[info.in_archetype_id as usize];
        Some(elem)
    }

    /// Replaces the component of type `t` of an entity and returns the old
    /// one; none, and no change, if the entity is not live or lacks the type.
    pub fn set(&mut self, entity: EntityID, t: u32, value: V) -> (r: Option<V>)
        requires
            old(self).wf(),
        ensures
            final(self).wf(),
            r == (if old(self).view().contains_key(entity@) && old(self).view()[entity@].contains_key(t) {
                Some(old(self).view()[entity@][t])
            } else {
                None
            }),
            final(self).view() == (if r.is_some() {
                old(self).view().insert(entity@, old(self).view()[entity@].insert(t, value))
            } else {
                old(self).view()
            }),
            final(self).resource_count() == old(self).resource_count(),
            final(self).archetype_types() == old(self).archetype_types(),
            final(self).component_type_count() == old(self).component_type_count(),
            final(self).resource_values() == old(self).resource_values(),
            final(self).changed_last_cycle() == old(self).changed_last_cycle(),
            final(self).changed_this_cycle() == old(self).changed_this_cycle(),
    {
        let info = match self.entities.get(entity.to_raw()) {
            Some(info) => info,
            None => return None,
        };
        let storage = match self.archeman.find_storage(ArchetypeID(info.archetype_id), t) {
            Some(s) => s,
            None => return None,
        };
        let ghost arch = self.archeman.archetypes@[info.archetype_id as int];
        proof {
            assert(arch.wf());
            let k = slot(arch.types@, t);
            assert(arch.storages@[k] == storage);
            assert(segment_fits(arch, k, self.columns@));
        }
        let ghost w0 = *self;
        let mut column = ComponentList::new();
        std::mem::swap(&mut column, &mut self.columns[t as usize]);
        let mut segment = Vec::new();
        std::mem::swap(&mut segment, &mut column.list[storage.0 as usize]);
        let mut v = value;
        std::mem::swap(&mut v, &mut segment[info.in_archetype_id as usize]);
        std::mem::swap(&mut segment, &mut column.list[storage.0 as usize]);
        std::mem::swap(&mut column, &mut self.columns[t as usize]);
        proof {
            Self::lemma_value_update(&w0, self, entity@, t, value);
        }
        Some(v)
    }

    /// `w1` is this world with the component of type `t` of the entity with
    /// key `key` replaced by `v`.
    pub closed spec fn value_replaced(&self, w1: World<V, R>, key: u64, t: u32, v: V) -> bool {
        let info = slots_of(self.entities)[key];
        let arch = self.archeman.archetypes@[info.archetype_id as int];
        let s = arch.storages@[slot(arch.types@, t)].0 as int;
        &&& w1.entities == self.entities
        &&& w1.archeman == self.archeman
        &&& w1.resources == self.resources
        &&& w1.changes_prev == self.changes_prev
        &&& w1.changes_new == self.changes_new
        &&& w1.columns@.len() == self.columns@.len()
        &&& forall|u: int| 0 <= u < self.columns@.len() && u != t ==> #[trigger] w1.columns@[u] == self.columns@[u]
        &&& w1.columns@[t as int].list@.len() == self.columns@[t as int].list@.len()
        &&& forall|s2: int| 0 <= s2 < self.columns@[t as int].list@.len() && s2 != s ==> #[trigger] w1.columns@[t as int].list@[s2] == self.columns@[t as int].list@[s2]
        &&& w1.columns@[t as int].list@[s]@ == self.columns@[t as int].list@[s]@.update(info.in_archetype_id as int, v)
    }

    /// A world with one component value replaced is well-formed, and differs
    /// from the given world only in that value.
    proof fn lemma_value_replaced(w0: World<V, R>, key: u64, t: u32)
        requires
            w0.wf(),
            w0.view().contains_key(key),
            w0.view()[key].contains_key(t),
        ensures
            forall|w1: World<V, R>, v: V| #[trigger] w0.value_replaced(w1, key, t, v) ==> {
                &&& w1.wf()
                &&& w1.view() == w0.view().insert(key, w0.view()[key].insert(t, v))
                &&& w1.archetype_types() == w0.archetype_types()
                &&& w1.component_type_count() == w0.component_type_count()
                &&& w1.resource_values() == w0.resource_values()
                &&& w1.resource_count() == w0.resource_count()
                &&& w1.changed_last_cycle() == w0.changed_last_cycle()
                &&& w1.changed_this_cycle() == w0.changed_this_cycle()
            },
    {
        assert forall|w1: World<V, R>, v: V| #[trigger] w0.value_replaced(w1, key, t, v) implies {
            &&& w1.wf()
            &&& w1.view() == w0.view().insert(key, w0.view()[key].insert(t, v))
            &&& w1.archetype_types() == w0.archetype_types()
            &&& w1.component_type_count() == w0.component_type_count()
            &&& w1.resource_values() == w0.resource_values()
            &&& w1.resource_count() == w0.resource_count()
            &&& w1.changed_last_cycle() == w0.changed_last_cycle()
            &&& w1.changed_this_cycle() == w0.changed_this_cycle()
        } by {
            Self::lemma_value_update(&w0, &w1, key, t, v);
        }
    }

    /// A world that differs from a well-formed one only in one component
    /// value of one entity is well-formed, and its view differs only there.
    proof fn lemma_value_update(w0: &World<V, R>, w1: &World<V, R>, key: u64, t: u32, v: V)
        requires
            w0.wf(),
            w0.view().contains_key(key),
            w0.view()[key].contains_key(t),
            w1.entities == w0.entities,
            w1.archeman == w0.archeman,
            w1.resources == w0.resources,
            w1.changes_prev == w0.changes_prev,
            w1.changes_new == w0.changes_new,
            ({
                let info = slots_of(w0.entities)[key];
                let arch = w0.archeman.archetypes@[info.archetype_id as int];
                let s = arch.storages@[slot(arch.types@, t)].0 as int;
                &&& w1.columns@.len() == w0.columns@.len()
                &&& forall|u: int| 0 <= u < w0.columns@.len() && u != t ==> #[trigger] w1.columns@[u] == w0.columns@[u]
                &&& w1.columns@[t as int].list@.len() == w0.columns@[t as int].list@.len()
                &&& forall|s2: int| 0 <= s2 < w0.columns@[t as int].list@.len() && s2 != s ==> #[trigger] w1.columns@[t as int].list@[s2] == w0.columns@[t as int].list@[s2]
                &&& w1.columns@[t as int].list@[s]@ == w0.columns@[t as int].list@[s]@.update(info.in_archetype_id as int, v)
            }),
        ensures
            w1.wf(),
            w1.view() == w0.view().insert(key, w0.view()[key].insert(t, v)),
            w1.archetype_types() == w0.archetype_types(),
            w1.component_type_count() == w0.component_type_count(),
            w1.resource_values() == w0.resource_values(),
            w1.resource_count() == w0.resource_count(),
            w1.changed_last_cycle() == w0.changed_last_cycle(),
            w1.changed_this_cycle() == w0.changed_this_cycle(),
    {
        let t0 = slots_of(w0.entities);
        let a0 = w0.archeman.archetypes@;
        let c0 = w0.columns@;
        let c1 = w1.columns@;
        let info = t0[key];
        let x = info.archetype_id as int;
        let arch = a0[x];
        assert(arch.wf());
        let kt = slot(arch.types@, t);
        assert(arch.types@.contains(t));
        assert(arch.types@[kt] == t);
        let st = arch.storages@[kt].0 as int;
        assert(segment_fits(arch, kt, c0));
        assert forall|y: int, k: int| 0 <= y < a0.len() && 0 <= k < a0[y].types@.len()
            implies #[trigger] segment_fits(a0[y], k, c1) by {
            assert(segment_fits(a0[y], k, c0));
        }
        assert(segments_sized(a0, c1));
        assert(columns_bounded(a0, c1));
        assert(w1.wf());
        assert forall|k: u64| #[trigger] w1.view().contains_key(k) && k != key implies w1.view()[k] == w0.view()[k] by {
            let e = t0[k];
            let y = e.archetype_id as int;
            assert(a0[y].wf());
            assert forall|j: int| 0 <= j < a0[y].types@.len() implies #[trigger] c1[a0[y].types@[j] as int].list@[a0[y].storages@[j].0 as int]@[e.in_archetype_id as int]
                == c0[a0[y].types@[j] as int].list@[a0[y].storages@[j].0 as int]@[e.in_archetype_id as int] by {
                assert(segment_fits(a0[y], j, c0));
                let u = a0[y].types@[j] as int;
                let sj = a0[y].storages@[j].0 as int;
                if u == t && sj == st {
                    assert(segment_of(a0[y], j) == segment_of(arch, kt));
                    assert(y == x);
                    assert(a0[x].entities@[e.in_archetype_id as int]@ == k);
                    assert(e.in_archetype_id != info.in_archetype_id);
                }
            }
            Self::lemma_same_components(w1, w0, k);
        }
        assert forall|u: u32| #[trigger] w1.components_of(key).contains_key(u) implies w1.components_of(key)[u]
            == w0.components_of(key).insert(t, v)[u] by {
            if u != t {
                let j = slot(arch.types@, u);
                assert(arch.types@[j] == u);
                assert(segment_fits(arch, j, c0));
            }
        }
        assert(w1.components_of(key) =~= w0.components_of(key).insert(t, v));
        assert(w1.view() =~= w0.view().insert(key, w0.view()[key].insert(t, v)));
    }

    /// Number of registered resource types.
    pub closed spec fn resource_count(&self) -> nat {
        self.resources@.len()
    }

    /// Number of registered resource types.
    pub fn resource_count_exec(&self) -> (r: usize)
        requires
            self.wf(),
        ensures
            r == self.resource_count(),
            r <= u32::MAX,
            self.changed_last_cycle().len() == r,
            self.changed_this_cycle().len() == r,
            self.resource_values().len() == r,
    {
        self.resources.len()
    }

    /// The value of resource `i`.
    pub fn resource(&self, i: u32) -> (r: &R)
        requires
            self.wf(),
            (i as int) < self.resource_count(),
        ensures
            *r == self.resource_values()[i as int],
    {
        self.resources[i as usize].get()
    }

    /// The value of resource `i`, to change in place; the resource is marked
    /// changed in the current cycle.
    pub fn resource_mut(&mut self, i: u32) -> (r: &mut R)
        requires
            old(self).wf(),
            (i as int) < old(self).resource_count(),
        ensures
            *r == old(self).resource_values()[i as int],
            final(self).wf(),
            final(self).resource_count() == old(self).resource_count(),
            forall|j: int|
                0 <= j < old(self).resource_count() && j != i ==> #[trigger] final(self).resource_values()[j]
                    == old(self).resource_values()[j],
            final(self).resource_values()[i as int] == *final(r),
            final(self).changed_this_cycle() == old(self).changed_this_cycle().update(i as int, true),
            final(self).changed_last_cycle() == old(self).changed_last_cycle(),
            final(self).view() == old(self).view(),
            final(self).archetype_types() == old(self).archetype_types(),
            final(self).component_type_count() == old(self).component_type_count(),
    {
        self.changes_new.mark_resource_as_changed(i);
        self.resources[i as usize].get_mut()
    }

    /// Whether resource `i` was written during the previous cycle.
    pub fn resource_changed(&self, i: u32) -> (r: bool)
        requires
            self.wf(),
            (i as int) < self.resource_count(),
        ensures
            r == self.changed_last_cycle()[i as int],
    {
        self.changes_prev.resource_changed(i)
    }

    /// Ends the current change-tracking cycle: its flags become the previous
    /// cycle's, and a fresh cycle starts with no change recorded.
    pub fn next_cycle(&mut self)
        requires
            old(self).wf(),
        ensures
            final(self).wf(),
            final(self).changed_last_cycle() == old(self).changed_this_cycle(),
            final(self).changed_this_cycle() == Seq::new(old(self).resource_count(), |j: int| false),
            final(self).resource_count() == old(self).resource_count(),
            final(self).view() == old(self).view(),
            final(self).archetype_types() == old(self).archetype_types(),
            final(self).component_type_count() == old(self).component_type_count(),
            final(self).resource_values() == old(self).resource_values(),
    {
        let mut fresh = ChangeManager::new(self.resources.len());
        std::mem::swap(&mut fresh, &mut self.changes_new);
        self.changes_prev = fresh.to_read_only();
        assert(self.view() =~= old(self).view());
    }

    /// What a query with filter `req` yields.
    pub closed spec fn query_result(&self, req: ComponentRequests) -> Seq<EntityID> {
        matching(self.archeman.archetypes@, req, self.archeman.archetypes@.len() as int)
    }

    /// The entities that pass a filter: archetypes in creation order, empty
    /// or failing ones skipped, members in archetype order.
    pub fn query(&self, req: &ComponentRequests) -> (r: Vec<EntityID>)
        requires
            self.wf(),
            req.wf(),
        ensures
            r@ == self.query_result(*req),
    {
        let mut r: Vec<EntityID> = Vec::new();
        let len = self.archeman.archetypes.len();
        let mut x: usize = 0;
        while x < len
            invariant
                self.wf(),
                req.wf(),
                len == self.archeman.archetypes@.len(),
                x <= len,
                r@ == matching(self.archeman.archetypes@, *req, x as int),
            decreases len - x,
        {
            let arch = &self.archeman.archetypes[x];
            proof {
                assert(arch.wf());
            }
            if arch.entities.len() > 0 && req.satisfied_by(&arch.types) {
                let n = arch.entities.len();
                let mut i: usize = 0;
                let ghost r0 = r@;
                while i < n
                    invariant
                        n == arch.entities@.len(),
                        i <= n,
                        r@ == r0 + arch.entities@.subrange(0, i as int),
                    decreases n - i,
                {
                    r.push(arch.entities[i]);
                    i = i + 1;
                    assert(r@ =~= r0 + arch.entities@.subrange(0, i as int));
                }
                assert(arch.entities@.subrange(0, n as int) =~= arch.entities@);
            } else {
                proof {
                    if arch.entities.len() == 0 {
                        assert(arch.entities@ =~= Seq::<EntityID>::empty());
                    }
                }
                assert(r@ =~= matching(self.archeman.archetypes@, *req, x + 1));
            }
            x = x + 1;
        }
        r
    }

    /// Whether an entity is live and its archetype passes a filter.
    pub fn admits_entity(&self, req: &ComponentRequests, entity: EntityID) -> (r: bool)
        requires
            self.wf(),
            req.wf(),
        ensures
            r == (self.view().contains_key(entity@) && admits(req, self.view()[entity@].dom())),
    {
        let info = match self.entities.get(entity.to_raw()) {
            Some(info) => info,
            None => return false,
        };
        let arch = &self.archeman.archetypes[info.archetype_id as usize];
        proof {
            assert(arch.wf());
            assert(self.view()[entity@].dom() =~= arch.types@.to_set());
        }
        req.satisfied_by(&arch.types)
    }

    /// Whether a bundle can be spawned here: distinct, registered types.
    pub fn bundle_valid(&self, bundle: &Vec<(u32, V)>) -> (r: bool)
        requires
            self.wf(),
        ensures
            r == (distinct_types(bundle@) && forall|k: int|
                0 <= k < bundle@.len() ==> (#[trigger] bundle@[k].0 as int) < self.component_type_count()),
    {
        let n = bundle.len();
        let mut i: usize = 0;
        while i < n
            invariant
                n == bundle@.len(),
                i <= n,
                forall|p: int, q: int| 0 <= p < q < n && p < i ==> bundle@[p].0 != bundle@[q].0,
                forall|k: int| 0 <= k < i ==> (#[trigger] bundle@[k].0 as int) < self.columns@.len(),
            decreases n - i,
        {
            if bundle[i].0 as usize >= self.columns.len() {
                return false;
            }
            let mut j: usize = i + 1;
            while j < n
                invariant
                    n == bundle@.len(),
                    i < n,
                    i < j <= n,
                    forall|q: int| i < q < j ==> bundle@[i as int].0 != bundle@[q].0,
                decreases n - j,
            {
                if bundle[i].0 == bundle[j].0 {
                    return false;
                }
                j = j + 1;
            }
            i = i + 1;
        }
        true
    }

    /// Carries out one command; a spawn takes place only where the bundle is
    /// valid and the world has room, and then returns the new handle.
    pub fn apply_command(&mut self, command: Command<V, R>) -> (r: Option<EntityID>)
        requires
            old(self).wf(),
        ensures
            final(self).wf(),
            final(self).view() == command_view(old(self).view(), command, r),
            final(self).resource_values() == command_resources(old(self).resource_values(), command),
            final(self).changed_this_cycle() == command_flags(old(self).changed_this_cycle(), command),
            final(self).changed_last_cycle() == old(self).changed_last_cycle(),
            final(self).archetype_count() <= old(self).archetype_count() + 1,
            final(self).component_type_count() == old(self).component_type_count(),
            final(self).resource_count() == old(self).resource_count(),
            r matches Some(e) ==> command is Spawn && !old(self).view().contains_key(e@),
            r is None ==> match command {
                Command::Spawn(b) => !(distinct_types(b@) && (forall|k: int|
                    0 <= k < b@.len() ==> (#[trigger] b@[k].0 as int) < old(self).component_type_count())
                    && old(self).view().len() < MAX_ENTITIES && old(self).archetype_count() < u32::MAX),
                _ => true,
            },
    {
        let ghost w0 = *self;
        proof {
            w0.lemma_places();
        }
        match command {
            Command::Spawn(bundle) => {
                proof {
                    self.lemma_view_dom();
                }
                if self.bundle_valid(&bundle) && self.entities.len() < MAX_ENTITIES
                    && self.archeman.archetypes.len() < u32::MAX as usize {
                    Some(self.spawn(bundle))
                } else {
                    None
                }
            },
            Command::Despawn(entity) => {
                self.despawn(entity);
                proof {
                    self.lemma_places();
                }
                None
            },
            Command::SetResource(i, value) => {
                if (i as usize) < self.resources.len() {
                    let slot = self.resource_mut(i);
                    *slot = value;
                    assert(self.resource_values() =~= old(self).resource_values().update(i as int, value));
                }
                proof {
                    self.lemma_places();
                }
                None
            },
        }
    }

    /// Index of the archetype that holds the entity with key `k`.
    pub closed spec fn archetype_of(&self, k: u64) -> nat {
        slots_of(self.entities)[k].archetype_id as nat
    }

    /// Place of the entity with key `k` among its archetype's members.
    pub closed spec fn place_of(&self, k: u64) -> nat {
        slots_of(self.entities)[k].in_archetype_id as nat
    }

    /// Key of the member at place `p` of archetype `x`.
    pub closed spec fn member_at(&self, x: int, p: int) -> u64 {
        self.archeman.archetypes@[x].entities@[p]@
    }

    /// Number of members of archetype `x`.
    pub closed spec fn archetype_len(&self, x: int) -> nat {
        self.archeman.archetypes@[x].entities@.len()
    }

    /// What a well-formed world guarantees about archetypes and places:
    /// one archetype per type list, strictly sorted and distinct; each live
    /// entity has a place of its own in the archetype of its type set; every
    /// place is taken; finitely many entities.
    pub proof fn lemma_places(&self)
        requires
            self.wf(),
        ensures
            self.view().dom().finite(),
            self.archetype_count() == self.archetype_types().len(),
            forall|x: int| 0 <= x < self.archetype_count() ==> strictly_sorted(#[trigger] self.archetype_types()[x]),
            forall|x: int, y: int|
                0 <= x < self.archetype_count() && 0 <= y < self.archetype_count() && x != y ==> #[trigger] self.archetype_types()[x]
                    != #[trigger] self.archetype_types()[y],
            forall|k: u64|
                #[trigger] self.view().contains_key(k) ==> {
                    &&& self.archetype_of(k) < self.archetype_count()
                    &&& self.place_of(k) < self.archetype_len(self.archetype_of(k) as int)
                    &&& self.view()[k].dom() == self.archetype_types()[self.archetype_of(k) as int].to_set()
                },
            forall|k1: u64, k2: u64|
                #[trigger] self.view().contains_key(k1) && #[trigger] self.view().contains_key(k2) && k1 != k2
                    ==> self.archetype_of(k1) != self.archetype_of(k2) || self.place_of(k1) != self.place_of(k2),
            forall|x: int, p: int|
                0 <= x < self.archetype_count() && 0 <= p < self.archetype_len(x) ==> {
                    let k = #[trigger] self.member_at(x, p);
                    &&& self.view().contains_key(k)
                    &&& self.archetype_of(k) == x
                    &&& self.place_of(k) == p
                },
    {
        self.lemma_view_dom();
        let t = slots_of(self.entities);
        let a = self.archeman.archetypes@;
        assert forall|x: int| 0 <= x < self.archetype_count() implies strictly_sorted(#[trigger] self.archetype_types()[x]) by {
            assert(a[x].wf());
        }
        assert forall|x: int, y: int|
            0 <= x < self.archetype_count() && 0 <= y < self.archetype_count() && x != y implies #[trigger] self.archetype_types()[x]
                != #[trigger] self.archetype_types()[y] by {
            assert(a[x].types@ != a[y].types@);
        }
        assert forall|k: u64| #[trigger] self.view().contains_key(k) implies {
            &&& self.archetype_of(k) < self.archetype_count()
            &&& self.place_of(k) < self.archetype_len(self.archetype_of(k) as int)
            &&& self.view()[k].dom() == self.archetype_types()[self.archetype_of(k) as int].to_set()
        } by {
            let x = t[k].archetype_id as int;
            assert(self.view()[k].dom() =~= a[x].types@.to_set());
        }
        assert forall|k1: u64, k2: u64|
            #[trigger] self.view().contains_key(k1) && #[trigger] self.view().contains_key(k2) && k1 != k2
            implies self.archetype_of(k1) != self.archetype_of(k2) || self.place_of(k1) != self.place_of(k2) by {
            let i1 = t[k1];
            let i2 = t[k2];
            assert(a[i1.archetype_id as int].entities@[i1.in_archetype_id as int]@ == k1);
            assert(a[i2.archetype_id as int].entities@[i2.in_archetype_id as int]@ == k2);
        }
        assert forall|x: int, p: int|
            0 <= x < self.archetype_count() && 0 <= p < self.archetype_len(x) implies {
                let k = #[trigger] self.member_at(x, p);
                &&& self.view().contains_key(k)
                &&& self.archetype_of(k) == x
                &&& self.place_of(k) == p
            } by {
            let k = a[x].entities@[p]@;
            assert(a[x].wf());
            assert(t.contains_key(k));
            assert(self.view().contains_key(k));
        }
    }

    /// Spawning a bundle and reading the new entity back: each type of the
    /// bundle gives the bundle's component of that type, every other type
    /// gives nothing.
    pub proof fn lemma_spawn_get_round_trip(before: World<V, R>, after: World<V, R>, e: EntityID, bundle: Seq<(u32, V)>)
        requires
            distinct_types(bundle),
            after.view() == before.view().insert(e@, bundle_map(bundle)),
        ensures
            after.view().contains_key(e@),
            forall|t: u32| #[trigger] after.view()[e@].contains_key(t) == in_bundle(bundle, t),
            forall|k: int| 0 <= k < bundle.len() ==> after.view()[e@][#[trigger] bundle[k].0] == bundle[k].1,
    {
        assert forall|k: int| 0 <= k < bundle.len() implies after.view()[e@][#[trigger] bundle[k].0] == bundle[k].1 by {
            lemma_bundle_value(bundle, k);
        }
    }

    /// After a despawn the entity is gone, the entity count is one less, and
    /// every other entity keeps exactly its components.
    pub proof fn lemma_despawn_effect(before: World<V, R>, after: World<V, R>, e: EntityID)
        requires
            before.wf(),
            before.view().contains_key(e@),
            after.view() == before.view().remove(e@),
        ensures
            !after.view().contains_key(e@),
            after.view().len() == before.view().len() - 1,
            forall|k: u64| #[trigger] after.view().contains_key(k) == (before.view().contains_key(k) && k != e@),
            forall|k: u64| k != e@ && before.view().contains_key(k) ==> #[trigger] after.view()[k] == before.view()[k],
    {
        before.lemma_view_dom();
    }

    /// Entities with the same set of component types share one archetype.
    pub proof fn lemma_archetype_reuse(&self, e1: EntityID, e2: EntityID)
        requires
            self.wf(),
            self.view().contains_key(e1@),
            self.view().contains_key(e2@),
            self.view()[e1@].dom() == self.view()[e2@].dom(),
        ensures
            self.archetype_of(e1@) == self.archetype_of(e2@),
    {
        let t = slots_of(self.entities);
        let a = self.archeman.archetypes@;
        let x1 = t[e1@].archetype_id as int;
        let x2 = t[e2@].archetype_id as int;
        assert(a[x1].wf() && a[x2].wf());
        assert forall|u: u32| a[x1].types@.to_set().contains(u) == a[x2].types@.to_set().contains(u) by {
            assert(self.view()[e1@].dom().contains(u) == a[x1].types@.contains(u));
            assert(self.view()[e2@].dom().contains(u) == a[x2].types@.contains(u));
        }
        assert(a[x1].types@.to_set() =~= a[x2].types@.to_set());
        lemma_sorted_same_set(a[x1].types@, a[x2].types@);
    }

    /// A query yields an entity exactly once for each place it holds in a
    /// passing archetype: what it yields is the live entities whose type set
    /// passes the filter.
    pub proof fn lemma_query_members(&self, req: ComponentRequests, e: EntityID)
        requires
            self.wf(),
        ensures
            self.query_result(req).contains(e) ==> self.view().contains_key(e@) && admits(&req, self.view()[e@].dom()),
    {
        let a = self.archeman.archetypes@;
        if self.query_result(req).contains(e) {
            lemma_matching_member(a, req, a.len() as int, e);
            let (y, i) = choose|y: int, i: int| 0 <= y < a.len() && 0 <= i < a[y].entities@.len() && a[y].entities@[i] == e && admits(&req, a[y].types@.to_set());
            assert(a[y].entities@[i] == e);
            assert(self.view()[e@].dom() =~= a[y].types@.to_set());
        }
    }

    /// Every live entity whose type set passes a filter is in the query's
    /// result.
    pub proof fn lemma_query_complete(&self, req: ComponentRequests, k: u64)
        requires
            self.wf(),
            self.view().contains_key(k),
            admits(&req, self.view()[k].dom()),
        ensures
            exists|i: int| 0 <= i < self.query_result(req).len() && (#[trigger] self.query_result(req)[i])@ == k,
    {
        let t = slots_of(self.entities);
        let a = self.archeman.archetypes@;
        let y = t[k].archetype_id as int;
        let i = t[k].in_archetype_id as int;
        assert(self.view()[k].dom() =~= a[y].types@.to_set());
        lemma_matching_includes(a, req, a.len() as int, y, i);
        assert(a[y].entities@[i]@ == k);
        let kk = choose|kk: int| 0 <= kk < matching(a, req, a.len() as int).len() && #[trigger] matching(a, req, a.len() as int)[kk] == a[y].entities@[i];
        assert(self.query_result(req)[kk]@ == k);
    }

    /// A query yields entities in order of archetype creation, then of
    /// place within the archetype.
    pub proof fn lemma_query_order(&self, req: ComponentRequests, i: int, j: int)
        requires
            self.wf(),
            0 <= i < j < self.query_result(req).len(),
        ensures
            self.view().contains_key(self.query_result(req)[i]@),
            self.view().contains_key(self.query_result(req)[j]@),
            self.archetype_of(self.query_result(req)[i]@) < self.archetype_of(self.query_result(req)[j]@) || (
            self.archetype_of(self.query_result(req)[i]@) == self.archetype_of(self.query_result(req)[j]@)
                && self.place_of(self.query_result(req)[i]@) < self.place_of(self.query_result(req)[j]@)),
    {
        let a = self.archeman.archetypes@;
        assert forall|y: int| 0 <= y < a.len() implies (#[trigger] a[y]).entities@.len() <= u32::MAX by {
            assert(a[y].wf());
        }
        lemma_matching_order(a, slots_of(self.entities), req, a.len() as int);
        let m = matching(a, req, a.len() as int);
        assert(m[i] == m[i] && m[j] == m[j]);
    }

    /// A query yields each live entity that passes its filter exactly once,
    /// and nothing else: its length is the number of such entities.
    pub proof fn lemma_query_count(&self, req: ComponentRequests)
        requires
            self.wf(),
        ensures
            self.query_result(req).map_values(|e: EntityID| e@).no_duplicates(),
            self.query_result(req).map_values(|e: EntityID| e@).to_set() == self.view().dom().filter(
                |k: u64| admits(&req, self.view()[k].dom()),
            ),
            self.query_result(req).len() == self.view().dom().filter(
                |k: u64| admits(&req, self.view()[k].dom()),
            ).len(),
    {
        let r = self.query_result(req);
        let keys = r.map_values(|e: EntityID| e@);
        let f = self.view().dom().filter(|k: u64| admits(&req, self.view()[k].dom()));
        let a = self.archeman.archetypes@;
        let t = slots_of(self.entities);
        assert forall|y: int| 0 <= y < a.len() implies (#[trigger] a[y]).entities@.len() <= u32::MAX by {
            assert(a[y].wf());
        }
        lemma_matching_order(a, t, req, a.len() as int);
        assert forall|i: int, j: int| 0 <= i < keys.len() && 0 <= j < keys.len() && i != j implies keys[i] != keys[j] by {
            assert(keys[i] == r[i]@ && keys[j] == r[j]@);
            if i < j {
                assert(r[i] == matching(a, req, a.len() as int)[i]);
                assert(r[j] == matching(a, req, a.len() as int)[j]);
            } else {
                assert(r[i] == matching(a, req, a.len() as int)[i]);
                assert(r[j] == matching(a, req, a.len() as int)[j]);
            }
        }
        assert(keys.no_duplicates());
        assert forall|k: u64| keys.to_set().contains(k) == f.contains(k) by {
            if keys.to_set().contains(k) {
                let i = choose|i: int| 0 <= i < keys.len() && keys[i] == k;
                assert(r.contains(r[i]));
                self.lemma_query_members(req, r[i]);
            }
            if f.contains(k) {
                self.lemma_query_complete(req, k);
                let i = choose|i: int| 0 <= i < r.len() && (#[trigger] r[i])@ == k;
                assert(keys[i] == k);
            }
        }
        assert(keys.to_set() =~= f);
        keys.unique_seq_to_set();
    }

    /// Two queries whose filters are disjoint never yield the same entity.
    pub proof fn lemma_disjoint_queries(&self, r1: ComponentRequests, r2: ComponentRequests, e: EntityID)
        requires
            self.wf(),
            disjoint(&r1, &r2),
        ensures
            !(self.query_result(r1).contains(e) && self.query_result(r2).contains(e)),
    {
        if self.query_result(r1).contains(e) && self.query_result(r2).contains(e) {
            self.lemma_query_members(r1, e);
            self.lemma_query_members(r2, e);
            let d = self.view()[e@].dom();
            let u = choose|u: u32| (r1.exclude_set().contains(u) && r2.require_set().contains(u)) || (r2.exclude_set().contains(u) && r1.require_set().contains(u));
            if r1.exclude_set().contains(u) && r2.require_set().contains(u) {
                assert(d.contains(u));
            } else {
                assert(d.contains(u));
            }
        }
    }

    /// A resource written in one cycle reads as changed during the next cycle
    /// only: once a cycle without writes to it has ended, it reads as
    /// unchanged.
    pub proof fn lemma_change_tracking(w0: World<V, R>, w1: World<V, R>, w2: World<V, R>, w3: World<V, R>, i: int)
        requires
            0 <= i < w0.changed_this_cycle().len(),
            w1.changed_this_cycle() == w0.changed_this_cycle().update(i, true),
            w2.changed_last_cycle() == w1.changed_this_cycle(),
            w2.changed_this_cycle() == Seq::new(w1.changed_this_cycle().len(), |j: int| false),
            w3.changed_last_cycle() == w2.changed_this_cycle(),
        ensures
            w2.changed_last_cycle()[i],
            !w3.changed_last_cycle()[i],
    {
    }

    /// The view's domain is the identity table's.
    proof fn lemma_view_dom(&self)
        requires
            self.wf(),
        ensures
            self.view().dom() == slots_of(self.entities).dom(),
            self.view().dom().finite(),
    {
        assert(self.view().dom() =~= slots_of(self.entities).dom());
    }

    /// Number of live entities.
    pub fn entity_count(&self) -> (r: u32)
        requires
            self.wf(),
        ensures
            r as nat == self.view().len(),
    {
        proof {
            self.lemma_view_dom();
        }
        let n = self.entities.len();
        n as u32
    }

    /// The component of type `t` of an entity; none if the entity is not
    /// live or lacks the type.
    pub fn get(&self, entity: EntityID, t: u32) -> (r: Option<&V>)
        requires
            self.wf(),
        ensures
            r == (if self.view().contains_key(entity@) && self.view()[entity@].contains_key(t) {
                Some(&self.view()[entity@][t])
            } else {
                None
            }),
    {
        let info = match self.entities.get(entity.to_raw()) {
            Some(info) => info,
            None => return None,
        };
        let storage = match self.archeman.find_storage(ArchetypeID(info.archetype_id), t) {
            Some(s) => s,
            None => return None,
        };
        let ghost arch = self.archeman.archetypes@[info.archetype_id as int];
        proof {
            assert(arch.wf());
            let k = slot(arch.types@, t);
            assert(arch.storages@[k] == storage);
            assert(segment_fits(arch, k, self.columns@));
        }
        self.columns[t as usize].get(storage, info.in_archetype_id)
    }
}

} // verus!
