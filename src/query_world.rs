//! Sessions over a world: Parameters are granted through the request
//! tracker, mutations through commands are buffered and applied when the
//! session ends.
use crate::identity::EntityID;
use crate::requests::{admits, claims_type, claims_collide, conflicts, disjoint, names_type, resource_conflicts, safe, ComponentRequests};
use crate::small_list::Request;
use crate::world::{command_flags, command_resources, command_view, Command, World};
use vstd::prelude::*;

verus! {

/// Why a Parameter was refused.
#[derive(Clone, Copy, PartialEq, Eq, Structural, Debug)]
pub enum AccessError {
    /// An exclusive claim was made in a shared session.
    ExclusiveInShared,
    /// A claim collides with one held at the same time.
    Incompatible,
}

/// The claims a granted Parameter holds: entries `start..end` of the
/// session's held requests.
#[derive(Clone, Copy, PartialEq, Eq, Structural, Debug)]
pub struct ParamGuard {
    pub start: usize,
    pub end: usize,
}

/// A handle that submits commands, tagged with the index of the Parameter
/// that produced it.
#[derive(Clone, Copy, PartialEq, Eq, Structural, Debug)]
pub struct CommandsG {
    pub param_index: usize,
}

/// The previous cycle's change flags, by resource type.
pub struct ChangesG {
    changed: Vec<bool>,
}

impl ChangesG {
    pub closed spec fn flags(&self) -> Seq<bool> {
        self.changed@
    }

    /// Whether resource `i` was written during the previous cycle.
    pub fn resource_changed(&self, i: u32) -> (r: bool)
        requires
            (i as int) < self.flags().len(),
        ensures
            r == self.flags()[i as int],
    {
        self.changed[i as usize]
    }
}

/// A command waiting for the end of its session, with the index of the
/// Parameter that submitted it and its submission number.
pub struct PendingCommand<V, R> {
    pub param_index: usize,
    pub seq: u64,
    pub command: Command<V, R>,
}

/// `a` is applied before `b`: lower Parameter index first, then earlier
/// submission.
pub open spec fn applies_before<V, R>(a: PendingCommand<V, R>, b: PendingCommand<V, R>) -> bool {
    a.param_index < b.param_index || (a.param_index == b.param_index && a.seq < b.seq)
}

/// A request claims something exclusively.
pub open spec fn claims_exclusive(r: ComponentRequests) -> bool {
    (exists|x: Request| r.component_set().contains(x) && x.exclusive) || (exists|x: Request|
        r.resource_set().contains(x) && x.exclusive)
}

/// New requests can be granted next to the held ones: no exclusive claim in
/// a shared session, and each new request is safe with every held one and
/// every earlier new one.
pub open spec fn grantable(
    held: Seq<ComponentRequests>,
    exclusive: bool,
    reqs: Seq<ComponentRequests>,
) -> bool {
    &&& forall|i: int| 0 <= i < reqs.len() ==> exclusive || !claims_exclusive(#[trigger] reqs[i])
    &&& forall|i: int, j: int|
        0 <= i < reqs.len() && 0 <= j < held.len() ==> safe(&#[trigger] reqs[i], &#[trigger] held[j])
    &&& forall|i: int, j: int|
        0 <= j < i < reqs.len() ==> safe(&#[trigger] reqs[i], &#[trigger] reqs[j])
}

/// The entity map after commands applied in order, spawns taking the
/// handles in `ids`.
pub open spec fn run_view<V, R>(
    m: Map<u64, Map<u32, V>>,
    cmds: Seq<PendingCommand<V, R>>,
    ids: Seq<Option<EntityID>>,
) -> Map<u64, Map<u32, V>>
    decreases cmds.len(),
{
    if cmds.len() == 0 {
        m
    } else {
        command_view(run_view(m, cmds.drop_last(), ids.drop_last()), cmds.last().command, ids.last())
    }
}

/// Resource values after commands applied in order.
pub open spec fn run_resources<V, R>(res: Seq<R>, cmds: Seq<PendingCommand<V, R>>) -> Seq<R>
    decreases cmds.len(),
{
    if cmds.len() == 0 {
        res
    } else {
        command_resources(run_resources(res, cmds.drop_last()), cmds.last().command)
    }
}

/// Change flags after commands applied in order.
pub open spec fn run_flags<V, R>(flags: Seq<bool>, cmds: Seq<PendingCommand<V, R>>) -> Seq<bool>
    decreases cmds.len(),
{
    if cmds.len() == 0 {
        flags
    } else {
        command_flags(run_flags(flags, cmds.drop_last()), cmds.last().command)
    }
}

impl<V, R> World<V, R> {
    /// Opens an exclusive session over the world.
    pub fn query_world(self) -> (r: QueryWorld<V, R>)
        requires
            self.wf(),
        ensures
            r.wf(),
            r.inner() == self,
            r.is_exclusive(),
            r.held().len() == 0,
            r.parameter_count() == 0,
            r.pending().len() == 0,
            r.submitted_count() == 0,
    {
        QueryWorld::new(self, true)
    }

    /// Opens a shared session over the world: it grants no exclusive claim.
    pub fn query_world_shared(self) -> (r: QueryWorld<V, R>)
        requires
            self.wf(),
        ensures
            r.wf(),
            r.inner() == self,
            !r.is_exclusive(),
            r.held().len() == 0,
            r.parameter_count() == 0,
            r.pending().len() == 0,
            r.submitted_count() == 0,
    {
        QueryWorld::new(self, false)
    }
}

/// A Parameter that claims a component type exclusively is refused while a
/// held request names the same type, unless the two filters are provably
/// disjoint.
pub proof fn lemma_exclusive_conflict(
    held: Seq<ComponentRequests>,
    exclusive: bool,
    new_request: ComponentRequests,
    j: int,
    t: u32,
)
    requires
        0 <= j < held.len(),
        new_request.component_set().contains(Request { type_index: t, exclusive: true }),
        names_type(held[j].component_set(), t),
        !disjoint(&new_request, &held[j]),
    ensures
        !grantable(held, exclusive, seq![new_request]),
{
    let x = Request { type_index: t, exclusive: true };
    let y = choose|y: Request| #[trigger] held[j].component_set().contains(y) && y.type_index == t;
    assert(new_request.component_set().contains(x) && held[j].component_set().contains(y));
    assert(claims_collide(new_request.component_set(), held[j].component_set()));
    assert(conflicts(&new_request, &held[j]));
    assert(!safe(&seq![new_request][0], &held[j]));
}

/// Requests whose filters require and exclude one same type are safe
/// together, whatever components they claim, as long as their resource
/// claims do not collide.
pub proof fn lemma_filter_split_safe(a: ComponentRequests, b: ComponentRequests, d: u32)
    requires
        a.require_set().contains(d),
        b.exclude_set().contains(d),
        !resource_conflicts(&a, &b),
    ensures
        safe(&a, &b),
        safe(&b, &a),
{
    assert(disjoint(&a, &b));
    assert(disjoint(&b, &a));
    assert(!resource_conflicts(&b, &a)) by {
        if resource_conflicts(&b, &a) {
            let (x, y) = choose|x: Request, y: Request|
                b.resource_set().contains(x) && a.resource_set().contains(y) && x.type_index == y.type_index
                    && (x.exclusive || y.exclusive);
            assert(a.resource_set().contains(y) && b.resource_set().contains(x));
        }
    }
}

/// A session over a world, shared or exclusive.
pub struct QueryWorld<V, R> {
    world: World<V, R>,
    exclusive: bool,
    currently_requested: Vec<ComponentRequests>,
    parameter_index: usize,
    command_buffer: Vec<PendingCommand<V, R>>,
    submitted: u64,
}

impl<V, R> QueryWorld<V, R> {
    pub closed spec fn wf(&self) -> bool {
        &&& self.world.wf()
        &&& forall|j: int| 0 <= j < self.currently_requested@.len() ==> (#[trigger] self.currently_requested@[j]).wf()
        &&& forall|i: int, j: int|
            0 <= i < j < self.command_buffer@.len() ==> applies_before(
                #[trigger] self.command_buffer@[i],
                #[trigger] self.command_buffer@[j],
            )
        &&& forall|i: int| 0 <= i < self.command_buffer@.len() ==> (#[trigger] self.command_buffer@[i]).seq < self.submitted
    }

    /// The world as the session sees it.
    pub closed spec fn inner(&self) -> World<V, R> {
        self.world
    }

    /// Whether exclusive claims may be granted.
    pub closed spec fn is_exclusive(&self) -> bool {
        self.exclusive
    }

    /// Requests recorded by granted Parameters, in grant order.
    pub closed spec fn held(&self) -> Seq<ComponentRequests> {
        self.currently_requested@
    }

    /// Number of Parameters asked for so far.
    pub closed spec fn parameter_count(&self) -> nat {
        self.parameter_index as nat
    }

    /// Commands waiting for the end of the session, in application order.
    pub closed spec fn pending(&self) -> Seq<PendingCommand<V, R>> {
        self.command_buffer@
    }

    /// Number of commands submitted so far.
    pub closed spec fn submitted_count(&self) -> nat {
        self.submitted as nat
    }

    /// Opens a session over `world`.
    pub fn new(world: World<V, R>, exclusive: bool) -> (r: QueryWorld<V, R>)
        requires
            world.wf(),
        ensures
            r.wf(),
            r.inner() == world,
            r.is_exclusive() == exclusive,
            r.held().len() == 0,
            r.parameter_count() == 0,
            r.pending().len() == 0,
            r.submitted_count() == 0,
    {
        QueryWorld {
            world,
            exclusive,
            currently_requested: Vec::new(),
            parameter_index: 0,
            command_buffer: Vec::new(),
            submitted: 0,
        }
    }

    /// Whether exclusive claims may be granted.
    pub fn exclusive(&self) -> (r: bool)
        ensures
            r == self.is_exclusive(),
    {
        self.exclusive
    }

    /// Grants a Parameter with the given requests if they are safe next to
    /// every request held now; the session is left as it was otherwise.
    pub fn parameter(&mut self, requests: Vec<ComponentRequests>) -> (r: Result<
        ParamGuard,
        AccessError,
    >)
        requires
            old(self).wf(),
            forall|i: int| 0 <= i < requests@.len() ==> (#[trigger] requests@[i]).wf(),
            old(self).parameter_count() < usize::MAX,
        ensures
            final(self).wf(),
            r is Ok == grantable(old(self).held(), old(self).is_exclusive(), requests@),
            r matches Ok(g) ==> {
                &&& final(self).held() == old(self).held() + requests@
                &&& g.start == old(self).held().len()
                &&& g.end == final(self).held().len()
                &&& final(self).parameter_count() == old(self).parameter_count() + 1
                &&& final(self).inner() == old(self).inner()
                &&& final(self).is_exclusive() == old(self).is_exclusive()
                &&& final(self).pending() == old(self).pending()
                &&& final(self).submitted_count() == old(self).submitted_count()
            },
            r matches Err(e) ==> {
                &&& *final(self) == *old(self)
                &&& (e == AccessError::ExclusiveInShared) == (!old(self).is_exclusive() && exists|i: int|
                    0 <= i < requests@.len() && claims_exclusive(#[trigger] requests@[i]))
            },
    {
        let n = requests.len();
        if !self.exclusive {
            let mut i: usize = 0;
            while i < n
                invariant
                    old(self).wf(),
                    *self == *old(self),
                    !self.exclusive,
                    n == requests@.len(),
                    i <= n,
                    forall|k: int| 0 <= k < i ==> !claims_exclusive(#[trigger] requests@[k]),
                decreases n - i,
            {
                if requests[i].any_exclusive() {
                    assert(claims_exclusive(requests@[i as int]));
                    return Err(AccessError::ExclusiveInShared);
                }
                i = i + 1;
            }
        }
        let held_len = self.currently_requested.len();
        let mut i: usize = 0;
        while i < n
            invariant
                old(self).wf(),
                *self == *old(self),
                n == requests@.len(),
                held_len == self.currently_requested@.len(),
                i <= n,
                forall|k: int| 0 <= k < requests@.len() ==> (#[trigger] requests@[k]).wf(),
                self.exclusive || forall|k: int| 0 <= k < n ==> !claims_exclusive(#[trigger] requests@[k]),
                forall|p: int, j: int|
                    0 <= p < i && 0 <= j < held_len ==> safe(&#[trigger] requests@[p], &#[trigger] self.currently_requested@[j]),
                forall|p: int, j: int| 0 <= j < p < i ==> safe(&#[trigger] requests@[p], &#[trigger] requests@[j]),
            decreases n - i,
        {
            let mut j: usize = 0;
            while j < held_len
                invariant
                    old(self).wf(),
                    *self == *old(self),
                    n == requests@.len(),
                    i < n,
                    held_len == self.currently_requested@.len(),
                    j <= held_len,
                    forall|k: int| 0 <= k < requests@.len() ==> (#[trigger] requests@[k]).wf(),
                    self.exclusive || forall|k: int| 0 <= k < n ==> !claims_exclusive(#[trigger] requests@[k]),
                    forall|q: int| 0 <= q < j ==> safe(&requests@[i as int], &#[trigger] self.currently_requested@[q]),
                decreases held_len - j,
            {
                assert(self.currently_requested@[j as int].wf());
                if !requests[i].safe_with(&self.currently_requested[j]) {
                    return Err(AccessError::Incompatible);
                }
                j = j + 1;
            }
            let mut j: usize = 0;
            while j < i
                invariant
                    old(self).wf(),
                    *self == *old(self),
                    n == requests@.len(),
                    i < n,
                    j <= i,
                    forall|k: int| 0 <= k < requests@.len() ==> (#[trigger] requests@[k]).wf(),
                    self.exclusive || forall|k: int| 0 <= k < n ==> !claims_exclusive(#[trigger] requests@[k]),
                    forall|q: int| 0 <= q < j ==> safe(&requests@[i as int], &#[trigger] requests@[q]),
                decreases i - j,
            {
                if !requests[i].safe_with(&requests[j]) {
                    return Err(AccessError::Incompatible);
                }
                j = j + 1;
            }
            i = i + 1;
        }
        let mut requests = requests;
        let ghost added = requests@;
        self.currently_requested.append(&mut requests);
        self.parameter_index = self.parameter_index + 1;
        proof {
            assert(self.currently_requested@ == old(self).currently_requested@ + added);
            assert forall|j: int| 0 <= j < self.currently_requested@.len() implies (#[trigger] self.currently_requested@[j]).wf() by {
                if j < held_len {
                    assert(self.currently_requested@[j] == old(self).currently_requested@[j]);
                } else {
                    assert(self.currently_requested@[j] == added[j - held_len]);
                }
            }
        }
        Ok(ParamGuard { start: held_len, end: self.currently_requested.len() })
    }

    /// The guard's Parameter holds claim `c` on a component.
    pub open spec fn grants(&self, g: ParamGuard, c: Request) -> bool {
        exists|j: int| g.start <= j < g.end && j < self.held().len() && (#[trigger] self.held()[j]).component_set().contains(c)
    }

    /// The guard's Parameter holds claim `c` on a resource.
    pub open spec fn grants_resource(&self, g: ParamGuard, c: Request) -> bool {
        exists|j: int| g.start <= j < g.end && j < self.held().len() && (#[trigger] self.held()[j]).resource_set().contains(c)
    }

    /// One of the guard's requests claims type `t` (exclusively, if
    /// `exclusive`) and its filter admits the entity's archetype.
    pub open spec fn permits(&self, g: ParamGuard, entity: EntityID, t: u32, exclusive: bool) -> bool {
        exists|j: int|
            g.start <= j < g.end && j < self.held().len() && claims_type(
                (#[trigger] self.held()[j]).component_set(),
                t,
                exclusive,
            ) && admits(&self.held()[j], self.inner().view()[entity@].dom())
    }

    /// Looks for a request of the guard that permits the access.
    fn find_permit(&self, guard: &ParamGuard, entity: EntityID, t: u32, exclusive: bool) -> (r: bool)
        requires
            self.wf(),
        ensures
            r == (self.inner().view().contains_key(entity@) && self.permits(*guard, entity, t, exclusive)),
    {
        let len = self.currently_requested.len();
        let end = if guard.end < len { guard.end } else { len };
        let mut j = guard.start;
        while j < end
            invariant
                self.wf(),
                len == self.currently_requested@.len(),
                end <= len,
                guard.start <= j || end <= j,
                end <= guard.end,
                forall|q: int|
                    guard.start <= q < j && q < end ==> !(claims_type((#[trigger] self.held()[q]).component_set(), t, exclusive)
                        && self.inner().view().contains_key(entity@) && admits(&self.held()[q], self.inner().view()[entity@].dom())),
            decreases end - j,
        {
            assert(self.currently_requested@[j as int].wf());
            if self.currently_requested[j].claims_component(t, exclusive)
                && self.world.admits_entity(&self.currently_requested[j], entity) {
                assert(self.held()[j as int] == self.currently_requested@[j as int]);
                assert(claims_type(self.held()[j as int].component_set(), t, exclusive));
                return true;
            }
            j = j + 1;
        }
        false
    }

    /// A component read through a Parameter whose request claims its type
    /// and whose filter admits the entity; none otherwise.
    pub fn get(&self, guard: &ParamGuard, entity: EntityID, t: u32) -> (r: Option<&V>)
        requires
            self.wf(),
        ensures
            r == (if self.inner().view().contains_key(entity@) && self.inner().view()[entity@].contains_key(t)
                && self.permits(*guard, entity, t, false) {
                Some(&self.inner().view()[entity@][t])
            } else {
                None
            }),
    {
        if self.find_permit(guard, entity, t, false) {
            self.world.get(entity, t)
        } else {
            None
        }
    }

    /// A component replaced through a Parameter whose request claims its
    /// type exclusively and whose filter admits the entity, in an exclusive
    /// session; none, and no change, otherwise.
    pub fn set(&mut self, guard: &ParamGuard, entity: EntityID, t: u32, value: V) -> (r: Option<V>)
        requires
            old(self).wf(),
        ensures
            final(self).wf(),
            r == (if old(self).is_exclusive() && old(self).inner().view().contains_key(entity@)
                && old(self).inner().view()[entity@].contains_key(t) && old(self).permits(*guard, entity, t, true) {
                Some(old(self).inner().view()[entity@][t])
            } else {
                None
            }),
            final(self).inner().view() == (if r.is_some() {
                old(self).inner().view().insert(entity@, old(self).inner().view()[entity@].insert(t, value))
            } else {
                old(self).inner().view()
            }),
            final(self).inner().archetype_types() == old(self).inner().archetype_types(),
            final(self).inner().resource_values() == old(self).inner().resource_values(),
            final(self).inner().resource_count() == old(self).inner().resource_count(),
            final(self).inner().changed_last_cycle() == old(self).inner().changed_last_cycle(),
            final(self).inner().changed_this_cycle() == old(self).inner().changed_this_cycle(),
            final(self).held() == old(self).held(),
            final(self).is_exclusive() == old(self).is_exclusive(),
            final(self).parameter_count() == old(self).parameter_count(),
            final(self).pending() == old(self).pending(),
            final(self).submitted_count() == old(self).submitted_count(),
    {
        if self.exclusive && self.find_permit(guard, entity, t, true) {
            self.world.set(entity, t, value)
        } else {
            None
        }
    }

    /// The entities a query Parameter iterates over: those whose archetype
    /// passes its filter.
    pub fn query(&self, guard: &ParamGuard) -> (r: Vec<EntityID>)
        requires
            self.wf(),
            guard.start < guard.end <= self.held().len(),
        ensures
            r@ == self.inner().query_result(self.held()[guard.start as int]),
    {
        assert(self.currently_requested@[guard.start as int].wf());
        self.world.query(&self.currently_requested[guard.start])
    }

    /// A resource read through a Parameter that claims it.
    pub fn resource(&self, guard: &ParamGuard, i: u32) -> (r: &R)
        requires
            self.wf(),
            (i as int) < self.inner().resource_count(),
            self.grants_resource(*guard, Request { type_index: i, exclusive: false })
                || self.grants_resource(*guard, Request { type_index: i, exclusive: true }),
        ensures
            *r == self.inner().resource_values()[i as int],
    {
        self.world.resource(i)
    }

    /// A resource changed in place through a Parameter that claims it
    /// exclusively, in an exclusive session; it is marked changed.
    pub fn resource_mut(&mut self, guard: &ParamGuard, i: u32) -> (r: &mut R)
        requires
            old(self).wf(),
            old(self).is_exclusive(),
            (i as int) < old(self).inner().resource_count(),
            old(self).grants_resource(*guard, Request { type_index: i, exclusive: true }),
        ensures
            *r == old(self).inner().resource_values()[i as int],
            final(self).wf(),
            final(self).inner().resource_count() == old(self).inner().resource_count(),
            forall|j: int|
                0 <= j < old(self).inner().resource_count() && j != i ==> #[trigger] final(self).inner().resource_values()[j]
                    == old(self).inner().resource_values()[j],
            final(self).inner().resource_values()[i as int] == *final(r),
            final(self).inner().changed_this_cycle() == old(self).inner().changed_this_cycle().update(i as int, true),
            final(self).inner().changed_last_cycle() == old(self).inner().changed_last_cycle(),
            final(self).inner().view() == old(self).inner().view(),
            final(self).inner().archetype_types() == old(self).inner().archetype_types(),
            final(self).held() == old(self).held(),
            final(self).is_exclusive() == old(self).is_exclusive(),
            final(self).parameter_count() == old(self).parameter_count(),
            final(self).pending() == old(self).pending(),
            final(self).submitted_count() == old(self).submitted_count(),
    {
        self.world.resource_mut(i)
    }

    /// The previous cycle's change flags.
    pub fn changes(&self) -> (r: ChangesG)
        requires
            self.wf(),
        ensures
            r.flags() == self.inner().changed_last_cycle(),
    {
        let n = self.world.resource_count_exec();
        let mut changed: Vec<bool> = Vec::new();
        let mut i: usize = 0;
        while i < n
            invariant
                self.wf(),
                n == self.inner().resource_count(),
                n <= u32::MAX,
                n == self.inner().changed_last_cycle().len(),
                i <= n,
                changed@ == self.inner().changed_last_cycle().subrange(0, i as int),
            decreases n - i,
        {
            changed.push(self.world.resource_changed(i as u32));
            i = i + 1;
            assert(changed@ =~= self.inner().changed_last_cycle().subrange(0, i as int));
        }
        assert(changed@ =~= self.inner().changed_last_cycle());
        ChangesG { changed }
    }

    /// A command handle; only an exclusive session gives one out.
    pub fn commands(&mut self) -> (r: Result<CommandsG, AccessError>)
        requires
            old(self).wf(),
            old(self).parameter_count() < usize::MAX,
        ensures
            final(self).wf(),
            r is Ok == old(self).is_exclusive(),
            r matches Ok(h) ==> {
                &&& h.param_index == old(self).parameter_count() + 1
                &&& final(self).parameter_count() == old(self).parameter_count() + 1
                &&& final(self).inner() == old(self).inner()
                &&& final(self).held() == old(self).held()
                &&& final(self).is_exclusive() == old(self).is_exclusive()
                &&& final(self).pending() == old(self).pending()
                &&& final(self).submitted_count() == old(self).submitted_count()
            },
            r matches Err(e) ==> *final(self) == *old(self) && e == AccessError::ExclusiveInShared,
    {
        if !self.exclusive {
            return Err(AccessError::ExclusiveInShared);
        }
        self.parameter_index = self.parameter_index + 1;
        Ok(CommandsG { param_index: self.parameter_index })
    }

    /// Buffers a command; it is placed after every pending command of a
    /// lower or equal Parameter index and before the rest.
    pub fn submit(&mut self, handle: &CommandsG, command: Command<V, R>)
        requires
            old(self).wf(),
            old(self).submitted_count() < u64::MAX,
        ensures
            final(self).wf(),
            exists|p: int|
                0 <= p <= old(self).pending().len() && final(self).pending() == #[trigger] old(self).pending().insert(
                    p,
                    (PendingCommand { param_index: handle.param_index, seq: old(self).submitted_count() as u64, command }),
                ),
            final(self).submitted_count() == old(self).submitted_count() + 1,
            final(self).inner() == old(self).inner(),
            final(self).held() == old(self).held(),
            final(self).is_exclusive() == old(self).is_exclusive(),
            final(self).parameter_count() == old(self).parameter_count(),
    {
        let ghost s = self.command_buffer@;
        let len = self.command_buffer.len();
        let mut p: usize = 0;
        while p < len && self.command_buffer[p].param_index <= handle.param_index
            invariant
                s == self.command_buffer@,
                len == s.len(),
                p <= len,
                forall|k: int| 0 <= k < p ==> (#[trigger] s[k]).param_index <= handle.param_index,
            decreases len - p,
        {
            p = p + 1;
        }
        let entry = PendingCommand { param_index: handle.param_index, seq: self.submitted, command };
        let ghost e = entry;
        self.command_buffer.insert(p, entry);
        self.submitted = self.submitted + 1;
        proof {
            let n = self.command_buffer@;
            assert(n == s.insert(p as int, e));
            assert(e == (PendingCommand { param_index: handle.param_index, seq: old(self).submitted_count() as u64, command }));
            assert(self.pending() == old(self).pending().insert(p as int, e));
            assert forall|i: int, j: int| 0 <= i < j < n.len() implies applies_before(
                #[trigger] n[i],
                #[trigger] n[j],
            ) by {
                if j < p {
                    assert(applies_before(s[i], s[j]));
                } else if j == p {
                    assert(s[i].seq < e.seq);
                } else if i < p {
                    if i + 1 < j {
                        assert(applies_before(s[i], s[j - 1]));
                    }
                    assert(s[j - 1].param_index > e.param_index) by {
                        if j - 1 > p {
                            assert(applies_before(s[p as int], s[j - 1]));
                        }
                    }
                } else if i == p {
                    assert(s[j - 1].param_index > e.param_index) by {
                        if j - 1 > p {
                            assert(applies_before(s[p as int], s[j - 1]));
                        }
                    }
                } else {
                    assert(applies_before(s[i - 1], s[j - 1]));
                }
            }
            assert forall|i: int| 0 <= i < n.len() implies (#[trigger] n[i]).seq < self.submitted by {
                if i < p {
                    assert(s[i].seq < old(self).submitted);
                } else if i > p {
                    assert(s[i - 1].seq < old(self).submitted);
                }
            }
        }
    }

    /// Ends the session: pending commands are applied in order, then a new
    /// change-tracking cycle begins. Returns the world and, per command, the
    /// handle of the entity it spawned.
    pub fn finish(self) -> (r: (World<V, R>, Vec<Option<EntityID>>))
        requires
            self.wf(),
        ensures
            r.0.wf(),
            r.1@.len() == self.pending().len(),
            r.0.view() == run_view(self.inner().view(), self.pending(), r.1@),
            r.0.resource_values() == run_resources(self.inner().resource_values(), self.pending()),
            r.0.changed_last_cycle() == run_flags(self.inner().changed_this_cycle(), self.pending()),
            r.0.changed_this_cycle() == Seq::new(self.inner().resource_count(), |j: int| false),
            r.0.component_type_count() == self.inner().component_type_count(),
            r.0.resource_count() == self.inner().resource_count(),
            r.0.archetype_count() <= self.inner().archetype_count() + self.pending().len(),
    {
        let ghost w0 = self.world;
        let ghost cmds = self.command_buffer@;
        let QueryWorld { world, command_buffer, .. } = self;
        let mut world = world;
        let mut rest = command_buffer;
        let mut ids: Vec<Option<EntityID>> = Vec::new();
        while rest.len() > 0
            invariant
                world.wf(),
                ids@.len() + rest@.len() == cmds.len(),
                rest@ == cmds.subrange(ids@.len() as int, cmds.len() as int),
                world.view() == run_view(w0.view(), cmds.subrange(0, ids@.len() as int), ids@),
                world.resource_values() == run_resources(w0.resource_values(), cmds.subrange(0, ids@.len() as int)),
                world.changed_this_cycle() == run_flags(w0.changed_this_cycle(), cmds.subrange(0, ids@.len() as int)),
                world.changed_last_cycle() == w0.changed_last_cycle(),
                world.component_type_count() == w0.component_type_count(),
                world.resource_count() == w0.resource_count(),
                world.archetype_count() <= w0.archetype_count() + ids@.len(),
            decreases rest@.len(),
        {
            let i = ids.len();
            let pending = rest.remove(0);
            let ghost before = ids@;
            assert(pending == cmds[i as int]);
            let id = world.apply_command(pending.command);
            ids.push(id);
            proof {
                let pre = cmds.subrange(0, i as int);
                let post = cmds.subrange(0, i + 1);
                assert(post.drop_last() =~= pre);
                assert(post.last() == cmds[i as int]);
                assert(ids@.drop_last() =~= before);
                assert(rest@ =~= cmds.subrange(i + 1, cmds.len() as int));
            }
        }
        proof {
            assert(cmds.subrange(0, cmds.len() as int) =~= cmds);
        }
        let ghost before_cycle = world;
        world.next_cycle();
        proof {
            before_cycle.lemma_places();
            world.lemma_places();
        }
        (world, ids)
    }

    /// Pending commands apply in order of Parameter index, and in submission
    /// order within one index.
    pub proof fn lemma_command_order(&self, i: int, j: int)
        requires
            self.wf(),
            0 <= i < self.pending().len(),
            0 <= j < self.pending().len(),
            self.pending()[i].param_index < self.pending()[j].param_index || (self.pending()[i].param_index
                == self.pending()[j].param_index && self.pending()[i].seq < self.pending()[j].seq),
        ensures
            i < j,
    {
        if j < i {
            assert(applies_before(self.command_buffer@[j], self.command_buffer@[i]));
        }
    }

    /// Releases a Parameter's claims; its filters stay recorded.
    pub fn release_parameter(&mut self, guard: ParamGuard)
        requires
            old(self).wf(),
            guard.start <= guard.end <= old(self).held().len(),
        ensures
            final(self).wf(),
            final(self).held().len() == old(self).held().len(),
            forall|j: int|
                0 <= j < old(self).held().len() && !(guard.start <= j < guard.end) ==> #[trigger] final(self).held()[j]
                    == old(self).held()[j],
            forall|j: int|
                guard.start <= j < guard.end ==> (#[trigger] final(self).held()[j]).component_set().is_empty()
                    && final(self).held()[j].resource_set().is_empty(),
            final(self).inner() == old(self).inner(),
            final(self).is_exclusive() == old(self).is_exclusive(),
            final(self).parameter_count() == old(self).parameter_count(),
            final(self).pending() == old(self).pending(),
            final(self).submitted_count() == old(self).submitted_count(),
    {
        let mut j = guard.start;
        while j < guard.end
            invariant
                guard.start <= j <= guard.end <= self.currently_requested@.len(),
                self.currently_requested@.len() == old(self).currently_requested@.len(),
                self.world == old(self).world,
                self.exclusive == old(self).exclusive,
                self.parameter_index == old(self).parameter_index,
                self.command_buffer == old(self).command_buffer,
                self.submitted == old(self).submitted,
                old(self).wf(),
                forall|k: int| 0 <= k < self.currently_requested@.len() ==> (#[trigger] self.currently_requested@[k]).wf(),
                forall|k: int|
                    0 <= k < self.currently_requested@.len() && !(guard.start <= k < j) ==> #[trigger] self.currently_requested@[k]
                        == old(self).currently_requested@[k],
                forall|k: int|
                    guard.start <= k < j ==> (#[trigger] self.currently_requested@[k]).component_set().is_empty()
                        && self.currently_requested@[k].resource_set().is_empty(),
            decreases guard.end - j,
        {
            let ghost before = self.currently_requested@;
            let mut req = ComponentRequests::new();
            std::mem::swap(&mut req, &mut self.currently_requested[j]);
            req.release();
            std::mem::swap(&mut req, &mut self.currently_requested[j]);
            proof {
                assert forall|k: int| 0 <= k < self.currently_requested@.len() implies (#[trigger] self.currently_requested@[k]).wf() by {
                    if k != j {
                        assert(self.currently_requested@[k] == before[k]);
                    }
                }
            }
            j = j + 1;
        }
    }
}

} // verus!
