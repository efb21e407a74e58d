//! A reusable object pool: released objects are kept, up to a fixed
//! capacity, and handed back out before any new object is created.

use vstd::prelude::*;

verus! {

/// An object pool with a bounded free list.  A clone of `template` is
/// handed out when the free list is empty.
pub struct MemoryPool<T> {
    pool: Vec<Box<T>>,
    capacity: usize,
    allocated: usize,
    reused: usize,
    template: T,
}

impl<T: Clone> MemoryPool<T> {
    /// The objects currently waiting for reuse, oldest first.
    pub closed spec fn free_list(&self) -> Seq<Box<T>> {
        self.pool@
    }

    /// The number of objects currently waiting for reuse.
    pub open spec fn free_count(&self) -> nat {
        self.free_list().len()
    }

    /// The configured capacity of the free list.
    pub closed spec fn spec_capacity(&self) -> nat {
        self.capacity as nat
    }

    /// An empty pool that will keep at most `capacity` released objects.
    pub fn new(capacity: usize, template: T) -> (r: MemoryPool<T>)
        ensures
            r.free_list() == Seq::<Box<T>>::empty(),
            r.spec_capacity() == capacity,
    {
        MemoryPool { pool: Vec::new(), capacity, allocated: 0, reused: 0, template }
    }

    /// Take an object: the most recently released one when any is
    /// pooled, a fresh one otherwise.
    pub fn acquire(&mut self) -> (r: Box<T>)
        ensures
            old(self).free_count() > 0 ==> r == old(self).free_list().last()
                && final(self).free_list() == old(self).free_list().drop_last(),
            old(self).free_count() == 0 ==> final(self).free_list() == old(self).free_list(),
            final(self).spec_capacity() == old(self).spec_capacity(),
    {
        match self.pool.pop() {
            Some(obj) => {
                if self.reused < usize::MAX {
                    self.reused = self.reused + 1;
                }
                obj
            },
            None => {
                if self.allocated < usize::MAX {
                    self.allocated = self.allocated + 1;
                }
                Box::new(self.template.clone())
            },
        }
    }

    /// Return an object to the pool: it joins the free list, or is
    /// dropped when the free list is already at capacity.
    pub fn release(&mut self, obj: Box<T>)
        ensures
            old(self).free_count() < old(self).spec_capacity() ==> final(self).free_list()
                == old(self).free_list().push(obj),
            old(self).free_count() >= old(self).spec_capacity() ==> final(self).free_list()
                == old(self).free_list(),
            final(self).spec_capacity() == old(self).spec_capacity(),
    {
        if self.pool.len() < self.capacity {
            self.pool.push(obj);
        }
    }
}

} // verus!
