//! Global allocator facade: the once-initialized core that the runtime's
//! allocation hook delegates to.
//!
//! Requests before `init`, or requests the buddy allocator cannot serve,
//! return the failure sentinel `None` rather than raising an error; the
//! surrounding runtime hook turns that into a null pointer. The
//! mutual-exclusion lock and the unsafe allocation hook itself live with
//! the embedder, which hands every call through here one at a time.

use vstd::prelude::*;

use crate::buddy::{
    block_size, buddy_wf, lists, merge_chain, push_at, request_order, BuddyAllocator, NUM_ORDERS,
};

verus! {

/// Well-formedness of the facade: the wrapped allocator is well formed, and
/// the two once-latches move together.
pub open spec fn global_wf(g: GlobalAllocator) -> bool {
    buddy_wf(g.allocator) && (g.initialized <==> g.allocator.initialized)
}

/// Process-wide allocation entry point: a buddy allocator behind an
/// init-once latch.
pub struct GlobalAllocator {
    /// The actual allocator.
    pub allocator: BuddyAllocator,
    /// Whether the facade has been initialized.
    pub initialized: bool,
}

impl GlobalAllocator {
    /// Creates a new, uninitialized facade.
    pub fn new() -> (r: GlobalAllocator)
        ensures
            global_wf(r),
            !r.initialized,
    {
        GlobalAllocator { allocator: BuddyAllocator::new(), initialized: false }
    }

    /// Initializes the heap over the given region if not already
    /// initialized; a second call changes nothing.
    pub fn init(&mut self, heap_start: usize, heap_size: usize)
        requires
            global_wf(*old(self)),
            heap_start + heap_size <= usize::MAX,
        ensures
            global_wf(*final(self)),
            old(self).initialized ==> *final(self) == *old(self),
            final(self).initialized,
            // The first call forwards the region unchanged to the inner
            // allocator, which carves it into its free lists.
            !old(self).initialized ==> {
                &&& final(self).allocator.memory_start == heap_start
                &&& final(self).allocator.memory_size == heap_size
                &&& lists(final(self).allocator) == crate::buddy::carve_region(
                    crate::buddy::empty_free_lists(),
                    heap_start as int,
                    heap_size as int,
                )
            },
    {
        if self.initialized {
            return ;
        }
        self.allocator.init(heap_start, heap_size);
        self.initialized = true;
    }

    /// Serves an allocation request, or returns the failure sentinel:
    /// `None` before `init` and `None` when no free block can hold the
    /// request.
    pub fn allocate(&mut self, size: usize, align: usize) -> (r: Option<usize>)
        requires
            global_wf(*old(self)),
        ensures
            global_wf(*final(self)),
            final(self).initialized == old(self).initialized,
            !old(self).initialized ==> r is None && *final(self) == *old(self),
            r is None ==> *final(self) == *old(self),
            (r is Some) <==> (old(self).initialized && exists|o: int|
                request_order(size as int, align as int) <= o < NUM_ORDERS && lists(
                    old(self).allocator,
                )[o].len() > 0),
            r is Some ==> r == Some(
                lists(old(self).allocator)[crate::buddy::first_free_order(
                    lists(old(self).allocator),
                    request_order(size as int, align as int),
                )].last(),
            ),
    {
        if !self.initialized {
            return None;
        }
        self.allocator.allocate(size, align)
    }

    /// Returns memory to the pool; a no-op before `init`.
    pub fn deallocate(&mut self, ptr: usize, size: usize, align: usize)
        requires
            global_wf(*old(self)),
            (old(self).initialized && old(self).allocator.memory_start <= ptr && ptr - old(
                self,
            ).allocator.memory_start < old(self).allocator.memory_size) ==> ({
                let q = request_order(size as int, align as int);
                &&& (ptr as int) % block_size(q) == 0
                &&& ptr + block_size(q) <= old(self).allocator.memory_start + old(
                    self,
                ).allocator.memory_size
                &&& forall|o: int, i: int|
                    crate::buddy::idx_ok(lists(old(self).allocator), o, i)
                        ==> crate::buddy::blocks_disjoint(
                        ptr as int,
                        q,
                        (#[trigger] lists(old(self).allocator)[o][i]) as int,
                        o,
                    )
            }),
        ensures
            global_wf(*final(self)),
            final(self).initialized == old(self).initialized,
            !old(self).initialized ==> *final(self) == *old(self),
            (old(self).initialized && old(self).allocator.memory_start <= ptr && ptr - old(
                self,
            ).allocator.memory_start < old(self).allocator.memory_size) ==> ({
                let q = request_order(size as int, align as int);
                let mc = merge_chain(lists(old(self).allocator), ptr as int, q);
                lists(final(self).allocator) == push_at(mc.0, mc.2, mc.1 as usize)
            }),
    {
        if !self.initialized {
            return ;
        }
        self.allocator.deallocate(ptr, size, align);
    }
}

} // verus!
