//! Append-only, index-addressed storage for homogeneous values.
//!
//! A [`Pool`] never removes entries, so a handle obtained from a pool stays
//! dereferenceable for the pool's whole lifetime.

use vstd::prelude::*;

verus! {

/// An opaque handle into a [`Pool`]: a plain index, valid only for the pool
/// that produced it.
#[derive(Debug, Copy, Clone, PartialEq, Eq, Structural)]
pub struct Ptr {
    pub idx: usize,
}

impl Ptr {
    /// Builds a handle from a raw index.
    pub fn new(idx: usize) -> (p: Ptr)
        ensures
            p.idx == idx,
    {
        Ptr { idx }
    }

    /// The raw index this handle carries.
    pub fn index(&self) -> (i: usize)
        ensures
            i == self.idx,
    {
        self.idx
    }
}

impl From<usize> for Ptr {
    /// A handle from a raw index.
    fn from(idx: usize) -> (p: Self) {
        Ptr { idx }
    }
}

impl vstd::std_specs::convert::FromSpecImpl<usize> for Ptr {
    open spec fn obeys_from_spec() -> bool {
        true
    }

    open spec fn from_spec(idx: usize) -> Self {
        Ptr { idx }
    }
}

/// Append-only arena of `T` values, addressed by [`Ptr`] handles.
#[derive(Debug)]
pub struct Pool<T> {
    objs: Vec<T>,
}

impl<T> View for Pool<T> {
    type V = Seq<T>;

    closed spec fn view(&self) -> Seq<T> {
        self.objs@
    }
}

impl<T> Pool<T> {
    /// An empty pool.
    pub fn new() -> (p: Self)
        ensures
            p@ =~= Seq::<T>::empty(),
    {
        Pool { objs: Vec::new() }
    }

    /// Reserves room for `count` further entries; the contents do not change.
    pub fn reserve(&mut self, count: usize)
        ensures
            final(self)@ == old(self)@,
    {
        self.objs.reserve(count);
    }

    /// An empty pool with room already reserved.
    pub fn with_capacity(capacity: usize) -> (p: Self)
        ensures
            p@ =~= Seq::<T>::empty(),
    {
        Pool { objs: Vec::with_capacity(capacity) }
    }

    /// Appends `obj` and returns its handle.
    ///
    /// Handles are handed out monotonically: the `n`-th allocation returns
    /// index `n`, and the new entry is dereferenceable at once.
    pub fn allocate(&mut self, obj: T) -> (p: Ptr)
        ensures
            p.idx == old(self)@.len(),
            final(self)@ =~= old(self)@.push(obj),
    {
        self.objs.push(obj);
        Ptr { idx: self.objs.len() - 1 }
    }

    /// Reads the entry behind `ptr`.
    ///
    /// A handle whose index is out of range is a programmer error; such a
    /// handle cannot come from this pool.
    pub fn deref(&self, ptr: Ptr) -> (r: &T)
        requires
            ptr.idx < self@.len(),
        ensures
            *r == self@[ptr.idx as int],
    {
        &self.objs[ptr.idx]
    }

    /// Borrows the entry behind `ptr` mutably.
    pub fn deref_mut(&mut self, ptr: Ptr) -> (r: &mut T)
        requires
            ptr.idx < old(self)@.len(),
        ensures
            *r == old(self)@[ptr.idx as int],
            final(self)@ == old(self)@.update(ptr.idx as int, *final(r)),
    {
        &mut self.objs[ptr.idx]
    }

    /// All entries, in allocation order (not program order).
    pub fn iter(&self) -> (r: &Vec<T>)
        ensures
            r@ == self@,
    {
        &self.objs
    }

    /// All entries mutably, in allocation order.
    pub fn iter_mut(&mut self) -> (r: &mut Vec<T>)
        ensures
            (*r)@ == old(self)@,
            final(self)@ == (*final(r))@,
    {
        &mut self.objs
    }

    /// How many entries have been allocated.
    pub fn len(&self) -> (n: usize)
        ensures
            n == self@.len(),
    {
        self.objs.len()
    }
}

} // verus!
