//! The identity allocator: a monotonically increasing counter that
//! hands out every pin, gate and chip id, so identities are never
//! reused and never collide across distinct object kinds.

use vstd::prelude::*;

verus! {

/// The source of all identities. Ids start at 1 (0 is reserved for
/// scratch values) and strictly increase; an id handed out once is
/// never handed out again by the same allocator.
pub struct IdAlloc {
    next: usize,
}

impl IdAlloc {
    /// The next id this allocator will hand out. Every id it has
    /// handed out so far is strictly below this bound.
    pub closed spec fn spec_next(&self) -> usize {
        self.next
    }

    /// A fresh allocator, whose first id is 1.
    pub fn new() -> (a: IdAlloc)
        ensures
            a.spec_next() == 1,
    {
        IdAlloc { next: 1 }
    }

    /// Hands out the next identity and advances the counter.
    pub fn next_id(&mut self) -> (id: usize)
        requires
            old(self).spec_next() < usize::MAX,
        ensures
            id == old(self).spec_next(),
            final(self).spec_next() == old(self).spec_next() + 1,
    {
        let id = self.next;
        self.next = self.next + 1;
        id
    }
}

/// Draws one identity from the allocator: the value returned is the
/// allocator's current bound, and the bound advances past it.
pub fn next_uuid(alloc: &mut IdAlloc) -> (id: usize)
    requires
        old(alloc).spec_next() < usize::MAX,
    ensures
        id == old(alloc).spec_next(),
        final(alloc).spec_next() == old(alloc).spec_next() + 1,
{
    alloc.next_id()
}

} // verus!
