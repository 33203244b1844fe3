//! What showing a view hands back: its id and whatever its closure returned.
use vstd::prelude::*;
use crate::input::ViewId;

verus! {

/// A response from a view: the id of the view and the data its `show`
/// closure returned.
#[derive(Debug)]
pub struct Response<T> {
    id: ViewId,
    inner: T,
}

impl<T> Response<T> {
    /// The id of the view that produced the response.
    pub closed spec fn spec_id(&self) -> ViewId {
        self.id
    }

    /// The data the response carries.
    pub closed spec fn spec_inner(&self) -> T {
        self.inner
    }

    pub fn new(id: ViewId, inner: T) -> (r: Response<T>)
        ensures
            r.spec_id() == id,
            r.spec_inner() == inner,
    {
        Response { id, inner }
    }

    /// Map the inner data to some new data, keeping the id.
    pub fn map<U, F: FnOnce(T) -> U>(self, map: F) -> (r: Response<U>)
        requires
            map.requires((self.spec_inner(),)),
        ensures
            r.spec_id() == self.spec_id(),
            map.ensures((self.spec_inner(),), r.spec_inner()),
    {
        let inner = map(self.inner);
        Response { id: self.id, inner }
    }

    /// The id which produced this response.
    pub fn id(&self) -> (r: ViewId)
        ensures
            r == self.spec_id(),
    {
        self.id
    }

    /// Consume the response, returning the inner data.
    pub fn into_inner(self) -> (r: T)
        ensures
            r == self.spec_inner(),
    {
        self.inner
    }

    /// Borrow the inner data.
    pub fn inner(&self) -> (r: &T)
        ensures
            *r == self.spec_inner(),
    {
        &self.inner
    }

    /// Borrow the inner data mutably; the id stays.
    pub fn inner_mut(&mut self) -> (r: &mut T)
        ensures
            *r == old(self).spec_inner(),
            final(self).spec_id() == old(self).spec_id(),
            final(self).spec_inner() == *final(r),
    {
        &mut self.inner
    }
}

impl<L, R> Response<(L, R)> {
    /// Keep the left side of a pair.
    pub fn flatten_left(self) -> (r: Response<L>)
        ensures
            r.spec_id() == self.spec_id(),
            r.spec_inner() == self.spec_inner().0,
    {
        let (l, _) = self.inner;
        Response { id: self.id, inner: l }
    }

    /// Keep the right side of a pair.
    pub fn flatten_right(self) -> (r: Response<R>)
        ensures
            r.spec_id() == self.spec_id(),
            r.spec_inner() == self.spec_inner().1,
    {
        let (_, r) = self.inner;
        Response { id: self.id, inner: r }
    }

    /// Split into two responses that share the id.
    pub fn split(self) -> (r: (Response<L>, Response<R>))
        ensures
            r.0.spec_id() == self.spec_id(),
            r.1.spec_id() == self.spec_id(),
            r.0.spec_inner() == self.spec_inner().0,
            r.1.spec_inner() == self.spec_inner().1,
    {
        let (left, right) = self.inner;
        (Response { id: self.id, inner: left }, Response { id: self.id, inner: right })
    }
}

impl<T> std::ops::Deref for Response<T> {
    type Target = T;

    fn deref(&self) -> (r: &T) {
        &self.inner
    }
}

} // verus!
