//! The request tracker's records: what one Parameter claims, and the rules
//! that decide whether two claims may be held at once.
use crate::small_list::{request_items, type_items, Request, RequestList, TypeList};
use vstd::prelude::*;

verus! {

/// Every element is smaller than every later one.
pub open spec fn strictly_sorted(s: Seq<u32>) -> bool {
    forall|i: int, j: int| 0 <= i < j < s.len() ==> s[i] < s[j]
}

/// Every request names a smaller type than every later one.
pub open spec fn sorted_by_type(s: Seq<Request>) -> bool {
    forall|i: int, j: int| 0 <= i < j < s.len() ==> s[i].type_index < s[j].type_index
}

/// Two request sets name one type and at least one side wants it exclusively.
pub open spec fn claims_collide(a: Set<Request>, b: Set<Request>) -> bool {
    exists|x: Request, y: Request|
        #![trigger a.contains(x), b.contains(y)]
        a.contains(x) && b.contains(y) && x.type_index == y.type_index && (x.exclusive
            || y.exclusive)
}

/// A request set claims type `t`; exclusively, if `exclusive`.
pub open spec fn claims_type(s: Set<Request>, t: u32, exclusive: bool) -> bool {
    exists|x: Request| #[trigger] s.contains(x) && x.type_index == t && (x.exclusive || !exclusive)
}

/// Whether a type is requested, either way, in a request set.
pub open spec fn names_type(s: Set<Request>, t: u32) -> bool {
    exists|x: Request| #[trigger] s.contains(x) && x.type_index == t
}

/// Claims of one Parameter: component requests with the archetype filter
/// they come with, and resource requests.
pub struct ComponentRequests {
    requests: RequestList,
    filter_require: TypeList,
    filter_exclude: TypeList,
    resource_requests: RequestList,
}

/// Scans two strictly sorted lists in one pass for a common element.
fn sorted_lists_meet(a: &TypeList, b: &TypeList) -> (r: bool)
    requires
        strictly_sorted(type_items(*a)),
        strictly_sorted(type_items(*b)),
    ensures
        r == (exists|x: u32| type_items(*a).contains(x) && type_items(*b).contains(x)),
{
    let ghost sa = type_items(*a);
    let ghost sb = type_items(*b);
    let alen = a.len();
    let blen = b.len();
    let mut i: usize = 0;
    let mut j: usize = 0;
    while i < alen && j < blen
        invariant
            alen == sa.len(),
            blen == sb.len(),
            sa == type_items(*a),
            sb == type_items(*b),
            strictly_sorted(sa),
            strictly_sorted(sb),
            i <= alen,
            j <= blen,
            forall|p: int, q: int| 0 <= p < i && 0 <= q < blen ==> sa[p] != sb[q],
            forall|p: int, q: int| 0 <= p < alen && 0 <= q < j ==> sa[p] != sb[q],
        decreases alen - i + blen - j,
    {
        let x = a.get(i);
        let y = b.get(j);
        if x == y {
            assert(sa.contains(x) && sb.contains(x));
            return true;
        } else if x < y {
            i = i + 1;
        } else {
            j = j + 1;
        }
    }
    assert forall|x: u32| !(sa.contains(x) && sb.contains(x)) by {
        if sa.contains(x) && sb.contains(x) {
            let p = choose|p: int| 0 <= p < sa.len() && sa[p] == x;
            let q = choose|q: int| 0 <= q < sb.len() && sb[q] == x;
        }
    }
    false
}

/// Scans two request lists, strictly sorted by type, in one pass for a type
/// that both name and at least one claims exclusively.
fn sorted_requests_collide(a: &RequestList, b: &RequestList) -> (r: bool)
    requires
        sorted_by_type(request_items(*a)),
        sorted_by_type(request_items(*b)),
    ensures
        r == claims_collide(request_items(*a).to_set(), request_items(*b).to_set()),
{
    let ghost sa = request_items(*a);
    let ghost sb = request_items(*b);
    let alen = a.len();
    let blen = b.len();
    let mut i: usize = 0;
    let mut j: usize = 0;
    while i < alen && j < blen
        invariant
            alen == sa.len(),
            blen == sb.len(),
            sa == request_items(*a),
            sb == request_items(*b),
            sorted_by_type(sa),
            sorted_by_type(sb),
            i <= alen,
            j <= blen,
            forall|p: int, q: int|
                0 <= p < i && 0 <= q < blen && sa[p].type_index == sb[q].type_index ==> !(
                sa[p].exclusive || sb[q].exclusive),
            forall|p: int, q: int|
                0 <= p < alen && 0 <= q < j && sa[p].type_index == sb[q].type_index ==> !(
                sa[p].exclusive || sb[q].exclusive),
            i < alen ==> forall|q: int| 0 <= q < j ==> sb[q].type_index < sa[i as int].type_index,
            j < blen ==> forall|p: int| 0 <= p < i ==> sa[p].type_index < sb[j as int].type_index,
        decreases alen - i + blen - j,
    {
        let x = a.get(i);
        let y = b.get(j);
        if x.type_index == y.type_index {
            if x.exclusive || y.exclusive {
                assert(sa.to_set().contains(x) && sb.to_set().contains(y));
                return true;
            }
            assert forall|q: int| 0 <= q < blen && sa[i as int].type_index == sb[q].type_index
                implies !(sa[i as int].exclusive || sb[q].exclusive) by {
                if q != j {
                    assert(sb[q].type_index != sb[j as int].type_index);
                }
            }
            assert forall|p: int| 0 <= p < alen && sa[p].type_index == sb[j as int].type_index
                implies !(sa[p].exclusive || sb[j as int].exclusive) by {
                if p != i {
                    assert(sa[p].type_index != sa[i as int].type_index);
                }
            }
            i = i + 1;
            j = j + 1;
        } else if x.type_index < y.type_index {
            assert forall|q: int| 0 <= q < blen implies sa[i as int].type_index
                != sb[q].type_index by {
                if q > j {
                    assert(sb[j as int].type_index < sb[q].type_index);
                }
            }
            i = i + 1;
        } else {
            assert forall|p: int| 0 <= p < alen implies sa[p].type_index
                != sb[j as int].type_index by {
                if p > i {
                    assert(sa[i as int].type_index < sa[p].type_index);
                }
            }
            j = j + 1;
        }
    }
    proof {
        if claims_collide(sa.to_set(), sb.to_set()) {
            let (x, y) = choose|x: Request, y: Request|
                sa.to_set().contains(x) && sb.to_set().contains(y) && x.type_index == y.type_index
                    && (x.exclusive || y.exclusive);
            assert(sa.contains(x));
            assert(sb.contains(y));
            let p = choose|p: int| 0 <= p < sa.len() && sa[p] == x;
            let q = choose|q: int| 0 <= q < sb.len() && sb[q] == y;
            assert(false);
        }
    }
    false
}


/// Inserting into a sequence adds exactly that element to its set.
proof fn lemma_insert_to_set<A>(s: Seq<A>, i: int, x: A)
    requires
        0 <= i <= s.len(),
    ensures
        s.insert(i, x).to_set() == s.to_set().insert(x),
{
    let t = s.insert(i, x);
    assert forall|y: A| t.to_set().contains(y) == s.to_set().insert(x).contains(y) by {
        if t.contains(y) {
            let k = choose|k: int| 0 <= k < t.len() && t[k] == y;
            if k < i {
                assert(s[k] == y);
            } else if k > i {
                assert(s[k - 1] == y);
            }
        }
        if s.contains(y) {
            let k = choose|k: int| 0 <= k < s.len() && s[k] == y;
            if k < i {
                assert(t[k] == y);
            } else {
                assert(t[k + 1] == y);
            }
        }
        if y == x {
            assert(t[i] == x);
        }
    }
    assert(t.to_set() =~= s.to_set().insert(x));
}

/// Adds `t` to a strictly sorted list, keeping it strictly sorted; a no-op
/// when `t` is already there.
fn insert_type_sorted(l: &mut TypeList, t: u32)
    requires
        strictly_sorted(type_items(*old(l))),
    ensures
        strictly_sorted(type_items(*final(l))),
        type_items(*final(l)).to_set() == type_items(*old(l)).to_set().insert(t),
{
    let ghost s = type_items(*l);
    let len = l.len();
    let mut i: usize = 0;
    let mut at_or_past = false;
    while i < len && !at_or_past
        invariant
            s == type_items(*l),
            len == s.len(),
            i <= len,
            forall|k: int| 0 <= k < i ==> s[k] < t,
            at_or_past ==> i < len && s[i as int] >= t,
        decreases len - i + (if at_or_past { 0int } else { 1int }),
    {
        if l.get(i) >= t {
            at_or_past = true;
        } else {
            i = i + 1;
        }
    }
    if i < len && l.get(i) == t {
        proof {
            assert(s.to_set().contains(t));
            assert(s.to_set().insert(t) =~= s.to_set());
        }
        return;
    }
    l.insert(i, t);
    proof {
        lemma_insert_to_set(s, i as int, t);
        let n = type_items(*l);
        assert forall|p: int, q: int| 0 <= p < q < n.len() implies n[p] < n[q] by {
            if q < i {
            } else if q == i {
            } else if p < i {
                assert(s[q - 1] > t);
            } else if p == i {
                assert(s[q - 1] > t);
            } else {
                assert(s[p - 1] < s[q - 1]);
            }
        }
    }
}

/// Adds request `r` to a list strictly sorted by type, keeping it so; a
/// no-op when the same request is already there.
fn insert_request_sorted(l: &mut RequestList, r: Request)
    requires
        sorted_by_type(request_items(*old(l))),
        forall|x: Request|
            request_items(*old(l)).contains(x) && x.type_index == r.type_index ==> x == r,
    ensures
        sorted_by_type(request_items(*final(l))),
        request_items(*final(l)).to_set() == request_items(*old(l)).to_set().insert(r),
{
    let ghost s = request_items(*l);
    let len = l.len();
    let mut i: usize = 0;
    let mut at_or_past = false;
    while i < len && !at_or_past
        invariant
            s == request_items(*l),
            len == s.len(),
            i <= len,
            forall|k: int| 0 <= k < i ==> s[k].type_index < r.type_index,
            at_or_past ==> i < len && s[i as int].type_index >= r.type_index,
        decreases len - i + (if at_or_past { 0int } else { 1int }),
    {
        if l.get(i).type_index >= r.type_index {
            at_or_past = true;
        } else {
            i = i + 1;
        }
    }
    if i < len && l.get(i).type_index == r.type_index {
        proof {
            assert(s.contains(s[i as int]));
            assert(s.to_set().contains(r));
            assert(s.to_set().insert(r) =~= s.to_set());
        }
        return;
    }
    l.insert(i, r);
    proof {
        lemma_insert_to_set(s, i as int, r);
        let n = request_items(*l);
        assert forall|p: int, q: int| 0 <= p < q < n.len() implies n[p].type_index
            < n[q].type_index by {
            if q < i {
            } else if q == i {
            } else if p < i {
                assert(s[q - 1].type_index > r.type_index);
            } else if p == i {
                assert(s[q - 1].type_index > r.type_index);
            } else {
                assert(s[p - 1].type_index < s[q - 1].type_index);
            }
        }
    }
}

/// Whether some element of a strictly sorted list is missing from another
/// strictly sorted list, found in one merged pass.
fn sorted_list_within(a: &TypeList, b: &Vec<u32>) -> (r: bool)
    requires
        strictly_sorted(type_items(*a)),
        strictly_sorted(b@),
    ensures
        r == (forall|x: u32| type_items(*a).contains(x) ==> b@.contains(x)),
{
    let ghost sa = type_items(*a);
    let alen = a.len();
    let blen = b.len();
    let mut i: usize = 0;
    let mut j: usize = 0;
    while i < alen
        invariant
            sa == type_items(*a),
            alen == sa.len(),
            blen == b@.len(),
            strictly_sorted(sa),
            strictly_sorted(b@),
            i <= alen,
            j <= blen,
            forall|p: int| 0 <= p < i ==> b@.contains(#[trigger] sa[p]),
            i < alen ==> forall|q: int| 0 <= q < j ==> b@[q] < sa[i as int],
        decreases alen - i + blen - j,
    {
        if j == blen {
            proof {
                if b@.contains(sa[i as int]) {
                    let q = choose|q: int| 0 <= q < b@.len() && b@[q] == sa[i as int];
                }
                assert(sa.contains(sa[i as int]));
            }
            return false;
        }
        let x = a.get(i);
        let y = b[j];
        if x == y {
            proof {
                assert(b@.contains(b@[j as int]));
                if i + 1 < alen {
                    assert(sa[i as int] < sa[i + 1]);
                }
            }
            i = i + 1;
            j = j + 1;
        } else if x > y {
            j = j + 1;
        } else {
            proof {
                if b@.contains(x) {
                    let q = choose|q: int| 0 <= q < b@.len() && b@[q] == x;
                    if q > j {
                        assert(b@[j as int] < b@[q]);
                    }
                }
                assert(sa.contains(sa[i as int]));
            }
            return false;
        }
    }
    proof {
        assert forall|x: u32| sa.contains(x) implies b@.contains(x) by {
            let p = choose|p: int| 0 <= p < sa.len() && sa[p] == x;
        }
    }
    true
}

/// Whether two strictly sorted lists, one of them a plain vector, share an
/// element, found in one merged pass.
fn sorted_list_meets_vec(a: &TypeList, b: &Vec<u32>) -> (r: bool)
    requires
        strictly_sorted(type_items(*a)),
        strictly_sorted(b@),
    ensures
        r == (exists|x: u32| type_items(*a).contains(x) && b@.contains(x)),
{
    let ghost sa = type_items(*a);
    let alen = a.len();
    let blen = b.len();
    let mut i: usize = 0;
    let mut j: usize = 0;
    while i < alen && j < blen
        invariant
            alen == sa.len(),
            blen == b@.len(),
            sa == type_items(*a),
            strictly_sorted(sa),
            strictly_sorted(b@),
            i <= alen,
            j <= blen,
            forall|p: int, q: int| 0 <= p < i && 0 <= q < blen ==> sa[p] != b@[q],
            forall|p: int, q: int| 0 <= p < alen && 0 <= q < j ==> sa[p] != b@[q],
        decreases alen - i + blen - j,
    {
        let x = a.get(i);
        let y = b[j];
        if x == y {
            assert(sa.contains(x) && b@.contains(x));
            return true;
        } else if x < y {
            i = i + 1;
        } else {
            j = j + 1;
        }
    }
    assert forall|x: u32| !(sa.contains(x) && b@.contains(x)) by {
        if sa.contains(x) && b@.contains(x) {
            let p = choose|p: int| 0 <= p < sa.len() && sa[p] == x;
            let q = choose|q: int| 0 <= q < b@.len() && b@[q] == x;
        }
    }
    false
}

/// Whether any request of a list is exclusive.
fn any_exclusive_in(l: &RequestList) -> (r: bool)
    ensures
        r == (exists|x: Request| request_items(*l).contains(x) && x.exclusive),
{
    let ghost s = request_items(*l);
    let len = l.len();
    let mut i: usize = 0;
    while i < len
        invariant
            s == request_items(*l),
            len == s.len(),
            i <= len,
            forall|k: int| 0 <= k < i ==> !s[k].exclusive,
        decreases len - i,
    {
        if l.get(i).exclusive {
            assert(s.contains(s[i as int]));
            return true;
        }
        i = i + 1;
    }
    assert forall|x: Request| !(s.contains(x) && x.exclusive) by {
        if s.contains(x) {
            let k = choose|k: int| 0 <= k < s.len() && s[k] == x;
        }
    }
    false
}


/// The two requests can never touch the same archetype: one's excluded types
/// meet the other's required types.
pub open spec fn disjoint(a: &ComponentRequests, b: &ComponentRequests) -> bool {
    exists|t: u32|
        (a.exclude_set().contains(t) && b.require_set().contains(t)) || (
        b.exclude_set().contains(t) && a.require_set().contains(t))
}

/// The two requests name one component type, at least one exclusively.
pub open spec fn conflicts(a: &ComponentRequests, b: &ComponentRequests) -> bool {
    claims_collide(a.component_set(), b.component_set())
}

/// The two requests name one resource type, at least one exclusively.
pub open spec fn resource_conflicts(a: &ComponentRequests, b: &ComponentRequests) -> bool {
    claims_collide(a.resource_set(), b.resource_set())
}

/// The two requests may be held at the same time.
pub open spec fn safe(a: &ComponentRequests, b: &ComponentRequests) -> bool {
    (!conflicts(a, b) || disjoint(a, b)) && !resource_conflicts(a, b)
}

/// An archetype with type set `types` passes the filter of `a`.
pub open spec fn admits(a: &ComponentRequests, types: Set<u32>) -> bool {
    a.require_set().subset_of(types) && a.exclude_set().disjoint(types)
}

impl ComponentRequests {
    /// The lists are kept strictly sorted by type.
    pub closed spec fn wf(&self) -> bool {
        &&& sorted_by_type(request_items(self.requests))
        &&& strictly_sorted(type_items(self.filter_require))
        &&& strictly_sorted(type_items(self.filter_exclude))
        &&& sorted_by_type(request_items(self.resource_requests))
    }

    /// Component claims.
    pub closed spec fn component_set(&self) -> Set<Request> {
        request_items(self.requests).to_set()
    }

    /// Types an archetype must hold to be touched.
    pub closed spec fn require_set(&self) -> Set<u32> {
        type_items(self.filter_require).to_set()
    }

    /// Types an archetype must lack to be touched.
    pub closed spec fn exclude_set(&self) -> Set<u32> {
        type_items(self.filter_exclude).to_set()
    }

    /// Resource claims.
    pub closed spec fn resource_set(&self) -> Set<Request> {
        request_items(self.resource_requests).to_set()
    }

    /// No claim and no filter.
    pub fn new() -> (r: ComponentRequests)
        ensures
            r.wf(),
            r.component_set() == Set::<Request>::empty(),
            r.require_set() == Set::<u32>::empty(),
            r.exclude_set() == Set::<u32>::empty(),
            r.resource_set() == Set::<Request>::empty(),
    {
        let r = ComponentRequests {
            requests: RequestList::new(),
            filter_require: TypeList::new(),
            filter_exclude: TypeList::new(),
            resource_requests: RequestList::new(),
        };
        proof {
            assert(request_items(r.requests).to_set() =~= Set::empty());
            assert(type_items(r.filter_require).to_set() =~= Set::empty());
            assert(type_items(r.filter_exclude).to_set() =~= Set::empty());
            assert(request_items(r.resource_requests).to_set() =~= Set::empty());
        }
        r
    }

    /// Requests to use a component, either exclusively or shared. Asking for
    /// one type both ways at once is a programming error.
    pub fn request(&mut self, type_index: u32, exclusive: bool)
        requires
            old(self).wf(),
            forall|x: Request|
                old(self).component_set().contains(x) && x.type_index == type_index
                    ==> x.exclusive == exclusive,
        ensures
            final(self).wf(),
            final(self).component_set() == old(self).component_set().insert(
                Request { type_index, exclusive },
            ),
            final(self).require_set() == old(self).require_set(),
            final(self).exclude_set() == old(self).exclude_set(),
            final(self).resource_set() == old(self).resource_set(),
    {
        let new_request = Request::new(type_index, exclusive);
        proof {
            assert forall|x: Request|
                request_items(self.requests).contains(x) && x.type_index == type_index implies x
                == new_request by {
                assert(request_items(self.requests).to_set().contains(x));
                assert(self.component_set().contains(x));
                assert(x.type_index == new_request.type_index);
                assert(x.exclusive == new_request.exclusive);
            }
        }
        insert_request_sorted(&mut self.requests, new_request);
    }

    /// Requires this component to be present in every archetype touched.
    pub fn require(&mut self, type_index: u32)
        requires
            old(self).wf(),
        ensures
            final(self).wf(),
            final(self).require_set() == old(self).require_set().insert(type_index),
            final(self).component_set() == old(self).component_set(),
            final(self).exclude_set() == old(self).exclude_set(),
            final(self).resource_set() == old(self).resource_set(),
    {
        insert_type_sorted(&mut self.filter_require, type_index);
    }

    /// Requires this component to be absent from every archetype touched.
    pub fn exclude(&mut self, type_index: u32)
        requires
            old(self).wf(),
        ensures
            final(self).wf(),
            final(self).exclude_set() == old(self).exclude_set().insert(type_index),
            final(self).component_set() == old(self).component_set(),
            final(self).require_set() == old(self).require_set(),
            final(self).resource_set() == old(self).resource_set(),
    {
        insert_type_sorted(&mut self.filter_exclude, type_index);
    }

    /// Requests to use a resource, either exclusively or shared. Asking for
    /// one type both ways at once is a programming error.
    pub fn request_resource(&mut self, type_index: u32, exclusive: bool)
        requires
            old(self).wf(),
            forall|x: Request|
                old(self).resource_set().contains(x) && x.type_index == type_index ==> x.exclusive
                    == exclusive,
        ensures
            final(self).wf(),
            final(self).resource_set() == old(self).resource_set().insert(
                Request { type_index, exclusive },
            ),
            final(self).component_set() == old(self).component_set(),
            final(self).require_set() == old(self).require_set(),
            final(self).exclude_set() == old(self).exclude_set(),
    {
        let new_request = Request::new(type_index, exclusive);
        proof {
            assert forall|x: Request|
                request_items(self.resource_requests).contains(x) && x.type_index == type_index
                implies x == new_request by {
                assert(request_items(self.resource_requests).to_set().contains(x));
                assert(self.resource_set().contains(x));
                assert(x.type_index == new_request.type_index);
                assert(x.exclusive == new_request.exclusive);
            }
        }
        insert_request_sorted(&mut self.resource_requests, new_request);
    }

    fn disjoint_half(&self, other: &Self) -> (r: bool)
        requires
            self.wf(),
            other.wf(),
        ensures
            r == (exists|t: u32|
                self.exclude_set().contains(t) && other.require_set().contains(t)),
    {
        let r = sorted_lists_meet(&self.filter_exclude, &other.filter_require);
        proof {
            let a = type_items(self.filter_exclude);
            let b = type_items(other.filter_require);
            if r {
                let x = choose|x: u32| a.contains(x) && b.contains(x);
                assert(a.to_set().contains(x) && b.to_set().contains(x));
                assert(self.exclude_set().contains(x) && other.require_set().contains(x));
            } else {
                assert forall|t: u32|
                    !(self.exclude_set().contains(t) && other.require_set().contains(t)) by {
                    if a.to_set().contains(t) && b.to_set().contains(t) {
                        assert(a.contains(t) && b.contains(t));
                    }
                }
            }
        }
        r
    }

    /// Whether the two requests can never access the same archetype.
    pub fn disjoint_with(&self, other: &Self) -> (r: bool)
        requires
            self.wf(),
            other.wf(),
        ensures
            r == disjoint(self, other),
    {
        self.disjoint_half(other) || other.disjoint_half(self)
    }

    /// Whether both requests claim one component type and at least one of
    /// them exclusively.
    pub fn conflicts_with(&self, other: &Self) -> (r: bool)
        requires
            self.wf(),
            other.wf(),
        ensures
            r == conflicts(self, other),
    {
        sorted_requests_collide(&self.requests, &other.requests)
    }

    /// Whether both requests claim one resource type and at least one of
    /// them exclusively.
    pub fn resource_conflicts_with(&self, other: &Self) -> (r: bool)
        requires
            self.wf(),
            other.wf(),
        ensures
            r == resource_conflicts(self, other),
    {
        sorted_requests_collide(&self.resource_requests, &other.resource_requests)
    }

    /// Whether both requests can be held at the same time.
    pub fn safe_with(&self, other: &Self) -> (r: bool)
        requires
            self.wf(),
            other.wf(),
        ensures
            r == safe(self, other),
    {
        (!self.conflicts_with(other) || self.disjoint_with(other))
            && !self.resource_conflicts_with(other)
    }

    /// Whether an archetype whose strictly sorted type list is `types` holds
    /// every required type.
    pub fn require_satisfied(&self, types: &Vec<u32>) -> (r: bool)
        requires
            self.wf(),
            strictly_sorted(types@),
        ensures
            r == self.require_set().subset_of(types@.to_set()),
    {
        let r = sorted_list_within(&self.filter_require, types);
        proof {
            let a = type_items(self.filter_require);
            if r {
                assert forall|x: u32| a.to_set().contains(x) implies types@.to_set().contains(x)
                    by {
                    assert(types@.contains(x));
                }
            } else {
                let x = choose|x: u32| !(a.contains(x) ==> types@.contains(x));
                assert(a.to_set().contains(x) && !types@.to_set().contains(x));
            }
        }
        r
    }

    /// Whether an archetype whose strictly sorted type list is `types` holds
    /// no excluded type.
    pub fn exclude_satisfied(&self, types: &Vec<u32>) -> (r: bool)
        requires
            self.wf(),
            strictly_sorted(types@),
        ensures
            r == self.exclude_set().disjoint(types@.to_set()),
    {
        let meets = sorted_list_meets_vec(&self.filter_exclude, types);
        proof {
            let a = type_items(self.filter_exclude);
            if meets {
                let x = choose|x: u32| a.contains(x) && types@.contains(x);
                assert(a.to_set().contains(x) && types@.to_set().contains(x));
            } else {
                assert forall|x: u32| a.to_set().contains(x) implies !types@.to_set().contains(
                    x,
                ) by {}
            }
        }
        !meets
    }

    /// Whether an archetype whose strictly sorted type list is `types` passes
    /// the filter.
    pub fn satisfied_by(&self, types: &Vec<u32>) -> (r: bool)
        requires
            self.wf(),
            strictly_sorted(types@),
        ensures
            r == admits(self, types@.to_set()),
    {
        self.require_satisfied(types) && self.exclude_satisfied(types)
    }

    /// Whether a component claim on type `t` is held, exclusive if asked.
    pub fn claims_component(&self, t: u32, exclusive: bool) -> (r: bool)
        requires
            self.wf(),
        ensures
            r == claims_type(self.component_set(), t, exclusive),
    {
        let ghost s = request_items(self.requests);
        let len = self.requests.len();
        let mut i: usize = 0;
        while i < len
            invariant
                s == request_items(self.requests),
                len == s.len(),
                i <= len,
                forall|k: int| 0 <= k < i ==> !((#[trigger] s[k]).type_index == t && (s[k].exclusive || !exclusive)),
            decreases len - i,
        {
            let x = self.requests.get(i);
            if x.type_index == t && (x.exclusive || !exclusive) {
                assert(s.contains(x));
                assert(self.component_set().contains(x));
                return true;
            }
            i = i + 1;
        }
        assert forall|x: Request| !(self.component_set().contains(x) && x.type_index == t && (x.exclusive || !exclusive)) by {
            if s.to_set().contains(x) {
                assert(s.contains(x));
                let k = choose|k: int| 0 <= k < s.len() && s[k] == x;
            }
        }
        false
    }

    /// Whether any claim, on a component or a resource, is exclusive.
    pub fn any_exclusive(&self) -> (r: bool)
        ensures
            r == ((exists|x: Request| self.component_set().contains(x) && x.exclusive) || (exists|
                x: Request,
            | self.resource_set().contains(x) && x.exclusive)),
    {
        let a = any_exclusive_in(&self.requests);
        let b = any_exclusive_in(&self.resource_requests);
        proof {
            let sa = request_items(self.requests);
            let sb = request_items(self.resource_requests);
            if a {
                let x = choose|x: Request| sa.contains(x) && x.exclusive;
                assert(sa.to_set().contains(x));
                assert(self.component_set().contains(x));
            } else {
                assert forall|x: Request| !(self.component_set().contains(x) && x.exclusive) by {
                    if sa.to_set().contains(x) {
                        assert(sa.contains(x));
                    }
                }
            }
            if b {
                let x = choose|x: Request| sb.contains(x) && x.exclusive;
                assert(sb.to_set().contains(x));
                assert(self.resource_set().contains(x));
            } else {
                assert forall|x: Request| !(self.resource_set().contains(x) && x.exclusive) by {
                    if sb.to_set().contains(x) {
                        assert(sb.contains(x));
                    }
                }
            }
        }
        a || b
    }

    /// Drops every claim; the filter stays.
    pub fn release(&mut self)
        requires
            old(self).wf(),
        ensures
            final(self).wf(),
            final(self).component_set() == Set::<Request>::empty(),
            final(self).resource_set() == Set::<Request>::empty(),
            final(self).require_set() == old(self).require_set(),
            final(self).exclude_set() == old(self).exclude_set(),
    {
        self.requests.clear();
        self.resource_requests.clear();
        proof {
            assert(request_items(self.requests).to_set() =~= Set::empty());
            assert(request_items(self.resource_requests).to_set() =~= Set::empty());
        }
    }
}


/// Query filter: only archetypes holding this component type.
#[derive(Clone, Copy, PartialEq, Eq, Structural, Debug)]
pub struct WithG {
    pub type_index: u32,
}

impl WithG {
    pub fn add_requests(&self, req: &mut ComponentRequests)
        requires
            old(req).wf(),
        ensures
            final(req).wf(),
            final(req).require_set() == old(req).require_set().insert(self.type_index),
            final(req).exclude_set() == old(req).exclude_set(),
            final(req).component_set() == old(req).component_set(),
            final(req).resource_set() == old(req).resource_set(),
    {
        req.require(self.type_index);
    }
}

/// Query filter: only archetypes lacking this component type.
#[derive(Clone, Copy, PartialEq, Eq, Structural, Debug)]
pub struct WithoutG {
    pub type_index: u32,
}

impl WithoutG {
    pub fn add_requests(&self, req: &mut ComponentRequests)
        requires
            old(req).wf(),
        ensures
            final(req).wf(),
            final(req).exclude_set() == old(req).exclude_set().insert(self.type_index),
            final(req).require_set() == old(req).require_set(),
            final(req).component_set() == old(req).component_set(),
            final(req).resource_set() == old(req).resource_set(),
    {
        req.exclude(self.type_index);
    }
}

} // verus!
