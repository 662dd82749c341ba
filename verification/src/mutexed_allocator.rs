//! The kernel's allocator behind a spin lock: every request takes the lock,
//! is served, and releases the lock.
//!
//! The lock is not re-entrant: a trap handler that allocated while the code
//! it interrupted held the lock would spin for ever.  Interrupts are not
//! masked while the lock is held; instead, trap handlers must never
//! allocate or free.

use vstd::prelude::*;
use crate::allocator::DynamicAllocator;
use crate::buddy_allocator::BuddyAllocator;
use crate::hybrid_allocator::HybridAllocator;
use crate::math::is_pow2;

verus! {

/// `spin::mutex::Mutex`, of which nothing is known but that it is a type.
#[verifier::external_type_specification]
#[verifier::external_body]
#[verifier::reject_recursive_types(T)]
#[verifier::reject_recursive_types(R)]
pub struct ExMutex<T: ?Sized, R>(spin::mutex::Mutex<T, R>);

/// `spin::mutex::MutexGuard`, of which nothing is known but that it is a
/// type.
#[verifier::external_type_specification]
#[verifier::external_body]
#[verifier::reject_recursive_types(T)]
#[verifier::reject_recursive_types(R)]
pub struct ExMutexGuard<'a, T: 'a + ?Sized, R>(spin::mutex::MutexGuard<'a, T, R>);

/// `spin::relax::Spin`, the way in which a `spin::mutex::Mutex` waits.
#[verifier::external_type_specification]
#[verifier::external_body]
pub struct ExSpin(spin::relax::Spin);

/// An allocator behind a spin lock.
#[verifier::reject_recursive_types(T)]
pub struct MutexedAllocator<T: DynamicAllocator> {
    inner: spin::mutex::Mutex<T, spin::relax::Spin>,
}

/// `spin::mutex::Mutex::new`: a lock that is free, around `c`.  Nothing is
/// claimed of the lock.
#[verifier::external_body]
fn mutex_new<T>(c: T) -> (m: spin::mutex::Mutex<T, spin::relax::Spin>) {
    spin::mutex::Mutex::new(c)
}

/// `spin::mutex::Mutex::lock`: spins until the lock is free, takes it, and
/// returns the guard that releases it when it is dropped.  It does not
/// return while the caller itself holds the lock.  Nothing is claimed of
/// the guard.
#[verifier::external_body]
fn mutex_lock<T>(m: &spin::mutex::Mutex<T, spin::relax::Spin>) -> (g: spin::mutex::MutexGuard<
    '_,
    T,
    spin::relax::Spin,
>) {
    m.lock()
}

/// `DerefMut::deref_mut` of `spin::mutex::MutexGuard`: the allocator that
/// the lock is around.  Nothing is claimed of its state.
#[verifier::external_body]
fn guard_mut<'a, 'b, T>(g: &'a mut spin::mutex::MutexGuard<'b, T, spin::relax::Spin>) -> (r: &'a mut T) {
    core::ops::DerefMut::deref_mut(g)
}

impl<T: DynamicAllocator> MutexedAllocator<T> {
    /// A lock around the allocator `c`.
    pub fn new(c: T) -> (res: Self) {
        MutexedAllocator { inner: mutex_new(c) }
    }
}

/// What comes out of a lock is known by its type alone.  A
/// `HybridAllocator` is consistent by its type, so it can be used as it
/// comes out.
impl MutexedAllocator<HybridAllocator> {
    /// Sets the allocator up for the heap `[start, start + size)` if, when
    /// the lock is taken, it has not been set up, and the region allows it;
    /// tells whether it did.
    pub fn init(&self, start: usize, size: usize) -> (res: bool)
        ensures
            res ==> BuddyAllocator::region_ok(start, size),
    {
        let mut guard = mutex_lock(&self.inner);
        let inner = guard_mut(&mut guard);
        inner.try_init(start, size)
    }

    /// Serves a request for `size` bytes aligned to `align` from the
    /// allocator as it stands when the lock is taken; `None` if it has not
    /// been set up, if `align` is 0, or if it has nothing to give.
    pub fn allocate(&self, size: usize, align: usize) -> (res: Option<usize>)
        ensures
            res matches Some(p) ==> align > 0 && (size <= 2048 || is_pow2(align as nat) ==> p % align == 0),
    {
        let mut guard = mutex_lock(&self.inner);
        let inner = guard_mut(&mut guard);
        inner.try_allocate(size, align)
    }

    /// Takes the allocation at `addr` back if, when the lock is taken, the
    /// allocator has been set up and a live allocation starts there, and
    /// tells whether it did.
    pub fn dealloc(&self, addr: usize) -> (res: bool) {
        let mut guard = mutex_lock(&self.inner);
        let inner = guard_mut(&mut guard);
        inner.try_dealloc(addr)
    }
}

} // verus!
