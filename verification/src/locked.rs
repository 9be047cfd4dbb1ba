//! The metadata heap behind a spin lock.

use crate::metadata_heap::MetadataHeap;
use crate::model::HeapView;
use core::ops::Deref;
use spin::Mutex;
use vstd::prelude::*;

verus! {

/// The lock type of the `spin` crate, `spin::mutex::Mutex`. Nothing is known of a value of
/// it: what it guards can change while it is shared.
#[verifier::external_type_specification]
#[verifier::external_body]
#[verifier::reject_recursive_types(T)]
#[verifier::reject_recursive_types(R)]
pub struct ExMutex<T: ?Sized, R>(spin::mutex::Mutex<T, R>);

/// The strategy `spin::relax::Spin` by which a lock of the `spin` crate waits.
#[verifier::external_type_specification]
#[verifier::external_body]
pub struct ExSpin(spin::relax::Spin);

/// A [`MetadataHeap`] behind a spin lock, to be shared between threads.
#[verifier::reject_recursive_types(ORDER)]
#[verifier::reject_recursive_types(MIN_ORDER)]
pub struct LockedMetadataHeap<const ORDER: usize, const MIN_ORDER: usize> {
    lock: Mutex<MetadataHeap<ORDER, MIN_ORDER>>,
    made_around: Ghost<MetadataHeap<ORDER, MIN_ORDER>>,
}

impl<const ORDER: usize, const MIN_ORDER: usize> LockedMetadataHeap<ORDER, MIN_ORDER> {
    /// The heap that the lock was made around. Only `around`, which makes the lock, says which
    /// that is.
    pub closed spec fn made_around(self) -> MetadataHeap<ORDER, MIN_ORDER> {
        self.made_around@
    }

    /// The lock.
    pub closed spec fn inner(self) -> Mutex<MetadataHeap<ORDER, MIN_ORDER>> {
        self.lock
    }

    /// A lock around the heap, made by `spin::mutex::Mutex::new`, which stores the value it is
    /// given in a lock that is not held. The contract claims that the lock was made around
    /// this heap; of what it guards later nothing is claimed, as that can change while the
    /// lock is shared.
    #[verifier::external_body]
    fn around(heap: MetadataHeap<ORDER, MIN_ORDER>) -> (locked: Self)
        ensures
            locked.made_around() == heap,
    {
        LockedMetadataHeap { lock: Mutex::new(heap), made_around: Ghost(heap) }
    }

    /// Create a lock around an uninitialised, empty allocator.
    pub fn new() -> (locked: Self)
        ensures
            locked.made_around().wf(),
            locked.made_around()@ == HeapView::nothing(ORDER as nat),
    {
        Self::around(MetadataHeap::new())
    }

    /// Alias for [`new`](Self::new).
    pub fn empty() -> (locked: Self)
        ensures
            locked.made_around().wf(),
            locked.made_around()@ == HeapView::nothing(ORDER as nat),
    {
        Self::new()
    }
}

impl<const ORDER: usize, const MIN_ORDER: usize> Deref for LockedMetadataHeap<ORDER, MIN_ORDER> {
    type Target = Mutex<MetadataHeap<ORDER, MIN_ORDER>>;

    fn deref(&self) -> (lock: &Self::Target)
        ensures
            *lock == self.inner(),
    {
        &self.lock
    }
}

} // verus!
