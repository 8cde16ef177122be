//! One lock per account, so that the sync sessions of an account run one at a
//! time while those of different accounts run side by side.
use vstd::prelude::*;
use std::collections::HashMap;
use std::sync::{Arc, Mutex, MutexGuard, RwLock, RwLockWriteGuard};

verus! {

/// std's `Mutex`, held opaque: the lock of one account.
#[verifier::external_type_specification]
#[verifier::external_body]
#[verifier::reject_recursive_types(T)]
pub struct ExMutex<T: ?Sized>(Mutex<T>);

/// std's `MutexGuard`: the lock is held until it is dropped.
#[verifier::external_type_specification]
#[verifier::external_body]
#[verifier::reject_recursive_types(T)]
pub struct ExMutexGuard<'a, T: ?Sized + 'a>(MutexGuard<'a, T>);

/// std's `RwLock`, held opaque: it guards the map of account locks.
#[verifier::external_type_specification]
#[verifier::external_body]
#[verifier::reject_recursive_types(T)]
pub struct ExRwLock<T: ?Sized>(RwLock<T>);

/// std's `RwLockWriteGuard`: write access until it is dropped.
#[verifier::external_type_specification]
#[verifier::external_body]
#[verifier::reject_recursive_types(T)]
pub struct ExRwLockWriteGuard<'a, T: ?Sized + 'a>(RwLockWriteGuard<'a, T>);

/// Relies on std's Mutex::new, which makes an unlocked mutex.
pub assume_specification<T>[ Mutex::<T>::new ](t: T) -> Mutex<T>;

/// Relies on std's RwLock::new, which makes an unlocked lock around the value.
pub assume_specification<T>[ RwLock::<T>::new ](t: T) -> RwLock<T>;

/// Relies on std's `DerefMut` for a write guard: the value that the lock guards.
pub assume_specification<'a, 'b, T: ?Sized>[ <RwLockWriteGuard<'a, T> as core::ops::DerefMut>::deref_mut ](
    g: &'b mut RwLockWriteGuard<'a, T>,
) -> &'b mut T;

/// The locks made so far, by account.
pub type LockMap = HashMap<i32, Arc<Mutex<()>>>;

/// Relies on Arc's `Clone`: a second pointer to the same allocation.
#[verifier::external_body]
fn share(a: &Arc<Mutex<()>>) -> (r: Arc<Mutex<()>>)
    ensures
        r == *a,
{
    Arc::clone(a)
}

/// Relies on std's RwLock::write: it blocks until no one else holds the lock.
/// A lock that a panicking holder left poisoned is taken all the same: the map
/// only ever gains whole entries.
#[verifier::external_body]
fn write_locks(l: &RwLock<LockMap>) -> RwLockWriteGuard<'_, LockMap> {
    match l.write() {
        Ok(g) => g,
        Err(poisoned) => poisoned.into_inner(),
    }
}

/// Relies on std's Mutex::lock: it blocks until no one else holds the mutex,
/// and fails where a holder panicked.
#[verifier::external_body]
pub(crate) fn lock_account(m: &Mutex<()>) -> (r: Option<MutexGuard<'_, ()>>) {
    m.lock().ok()
}

/// The lock of account `uid`, made and added to `map` where it has none yet.
/// Locks are never removed, so an account keeps its lock for good.
pub fn lock_of(map: &mut LockMap, uid: i32) -> (r: Arc<Mutex<()>>)
    ensures
        old(map)@.contains_key(uid) ==> final(map)@ == old(map)@ && r == old(map)@[uid],
        !old(map)@.contains_key(uid) ==> final(map)@ == old(map)@.insert(uid, r),
{
    broadcast use vstd::std_specs::hash::group_hash_axioms;
    match map.get(&uid) {
        Some(m) => {
            return share(m);
        },
        None => {},
    }
    let fresh = Arc::new(Mutex::new(()));
    map.insert(uid, share(&fresh));
    fresh
}

/// The per-account locks of the process.
pub struct UserLock {
    lock_map: RwLock<LockMap>,
}

impl UserLock {
    /// A manager that has made no lock yet.
    pub fn new() -> UserLock {
        UserLock { lock_map: RwLock::new(HashMap::new()) }
    }

    /// The lock of account `uid`, made on first use.
    pub fn get_mutex(&self, uid: i32) -> Arc<Mutex<()>> {
        let mut guard = write_locks(&self.lock_map);
        lock_of(core::ops::DerefMut::deref_mut(&mut guard), uid)
    }
}

} // verus!
