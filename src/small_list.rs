//! Short inline lists of type indices and of access requests, as kept by a
//! request tracker.
use smallvec::SmallVec;
use vstd::prelude::*;

verus! {

/// One claim on a component or resource type: shared or exclusive.
#[derive(Clone, Copy, PartialEq, Eq, Structural, Debug)]
pub struct Request {
    pub type_index: u32,
    pub exclusive: bool,
}

impl Request {
    pub fn new(type_index: u32, exclusive: bool) -> (r: Request)
        ensures
            r == (Request { type_index, exclusive }),
    {
        Request { type_index, exclusive }
    }
}

/// An inline list of type indices.
#[verifier::external_body]
pub struct TypeList {
    items: SmallVec<[u32; 8]>,
}

/// The elements of a type list, in order.
pub uninterp spec fn type_items(l: TypeList) -> Seq<u32>;

impl TypeList {
    /// Relies on `SmallVec::new`: an empty list.
    #[verifier::external_body]
    pub(crate) fn new() -> (r: TypeList)
        ensures
            type_items(r).len() == 0,
    {
        TypeList { items: SmallVec::new() }
    }

    /// Relies on `SmallVec::len`.
    #[verifier::external_body]
    pub(crate) fn len(&self) -> (r: usize)
        ensures
            r as nat == type_items(*self).len(),
    {
        self.items.len()
    }

    /// Relies on indexing a `SmallVec` within its length.
    #[verifier::external_body]
    pub(crate) fn get(&self, i: usize) -> (r: u32)
        requires
            i < type_items(*self).len(),
        ensures
            r == type_items(*self)[i as int],
    {
        self.items[i]
    }

    /// Relies on `SmallVec::insert`: shifts the tail right; panics only past
    /// the end (growth fails only where memory runs out, as for `Vec`).
    #[verifier::external_body]
    pub(crate) fn insert(&mut self, i: usize, x: u32)
        requires
            i <= type_items(*old(self)).len(),
        ensures
            type_items(*final(self)) == type_items(*old(self)).insert(i as int, x),
    {
        self.items.insert(i, x)
    }
}

/// An inline list of requests.
#[verifier::external_body]
pub struct RequestList {
    items: SmallVec<[Request; 8]>,
}

/// The elements of a request list, in order.
pub uninterp spec fn request_items(l: RequestList) -> Seq<Request>;

impl RequestList {
    /// Relies on `SmallVec::new`: an empty list.
    #[verifier::external_body]
    pub(crate) fn new() -> (r: RequestList)
        ensures
            request_items(r).len() == 0,
    {
        RequestList { items: SmallVec::new() }
    }

    /// Relies on `SmallVec::len`.
    #[verifier::external_body]
    pub(crate) fn len(&self) -> (r: usize)
        ensures
            r as nat == request_items(*self).len(),
    {
        self.items.len()
    }

    /// Relies on indexing a `SmallVec` within its length.
    #[verifier::external_body]
    pub(crate) fn get(&self, i: usize) -> (r: Request)
        requires
            i < request_items(*self).len(),
        ensures
            r == request_items(*self)[i as int],
    {
        self.items[i]
    }

    /// Relies on `SmallVec::insert`: shifts the tail right; panics only past
    /// the end (growth fails only where memory runs out, as for `Vec`).
    #[verifier::external_body]
    pub(crate) fn insert(&mut self, i: usize, x: Request)
        requires
            i <= request_items(*old(self)).len(),
        ensures
            request_items(*final(self)) == request_items(*old(self)).insert(i as int, x),
    {
        self.items.insert(i, x)
    }

    /// Relies on `SmallVec::clear`: no element is left.
    #[verifier::external_body]
    pub(crate) fn clear(&mut self)
        ensures
            request_items(*final(self)).len() == 0,
    {
        self.items.clear()
    }
}

} // verus!
