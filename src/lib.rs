use vstd::prelude::*;

pub mod ordered;

use std::sync::Mutex;
use std::sync::MutexGuard;

use crate::ordered::admits;
use crate::ordered::Category;

verus! {

#[verifier::external_type_specification]
#[verifier::external_body]
#[verifier::reject_recursive_types(T)]
pub struct ExMutex<T: ?Sized>(Mutex<T>);

#[verifier::external_type_specification]
#[verifier::external_body]
#[verifier::reject_recursive_types(T)]
pub struct ExMutexGuard<'a, T: ?Sized + 'a>(MutexGuard<'a, T>);

/// Relies on std's `Mutex::new`: wraps `data` in an unlocked mutex.
#[verifier::external_body]
fn new_mutex<T>(data: T) -> (m: Mutex<T>) {
    Mutex::new(data)
}

/// Relies on std's `Mutex::lock`: blocks until the calling thread holds the mutex, then hands
/// out the guard, and whether a previous holder panicked while holding it. std lets the call
/// panic or never return when the calling thread already holds the mutex; one chain never
/// reaches that, since it stays within one order, where each category it locks stands strictly
/// inward of the last, and a mutex's category is fixed.
#[verifier::external_body]
fn lock_mutex<'a, T>(m: &'a Mutex<T>) -> (r: (MutexGuard<'a, T>, bool)) {
    match m.lock() {
        Ok(g) => (g, false),
        Err(e) => (e.into_inner(), true),
    }
}

/// A capability that proves which category was locked last in a chain of acquisitions.
///
/// A token offers nothing to read: it is handed to `OrderedMutex::lock`, which consumes it and
/// gives back a new one for the category it locked.
#[derive(Debug)]
pub struct LockedToken {
    last: Option<Category>,
    consumed: bool,
}

impl LockedToken {
    /// The category locked last in this chain, as its order and identifier, or `None` at the
    /// start of a chain.
    pub closed spec fn held(&self) -> Option<(Seq<u64>, u64)> {
        match self.last {
            None => None,
            Some(c) => Some(c.key()),
        }
    }

    /// Whether this token was already handed to an acquisition.
    pub closed spec fn is_consumed(&self) -> bool {
        self.consumed
    }
}

/// Returns the token that starts a chain: no lock held yet.
///
/// The caller owes one start token per chain, and no thread may run two chains at once: call
/// this once per thread, when the thread starts, and never hand a token to another thread.
/// Nothing checks this. Through a second chain, a thread could lock a mutex that its first chain
/// already holds, and that call may panic or never return.
pub fn get_initial_token() -> (r: LockedToken)
    ensures
        r.held() is None,
        !r.is_consumed(),
{
    LockedToken { last: None, consumed: false }
}

/// Why an acquisition did not give a clean lock.
#[derive(Debug)]
#[verifier::reject_recursive_types(T)]
pub enum LockError<'a, T> {
    /// The mutex's category may not be locked after the token's category; nothing was locked.
    OrderViolation,
    /// The token was already used for an acquisition; nothing was locked.
    TokenConsumed,
    /// The lock was taken, but a previous holder panicked while holding it: the protected value
    /// may be inconsistent. The new token and the guard are handed over all the same.
    Poisoned(LockedToken, MutexGuard<'a, T>),
}

/// A mutex of a given category, which can only be locked with a token of a category that this
/// one may follow.
#[verifier::reject_recursive_types(T)]
pub struct OrderedMutex<T> {
    mutex: Mutex<T>,
    category: Category,
}

impl<T> OrderedMutex<T> {
    /// This mutex's category, as its order and identifier.
    pub closed spec fn key(&self) -> (Seq<u64>, u64) {
        self.category.key()
    }

    /// Creates a new mutex of category `category`, holding `data`.
    pub fn new(data: T, category: Category) -> (r: Self)
        ensures
            r.key() == category.key(),
    {
        OrderedMutex { mutex: new_mutex(data), category }
    }

    /// Locks the mutex with `token`, and returns a token for this mutex's category, with the
    /// guard over the data.
    ///
    /// A token that was already used is refused, before the mutex is touched. So is one unless
    /// this mutex's order declares its category after the token's: the token must come from a
    /// chain of the same order, and a start token admits only the innermost category. Otherwise
    /// the token is consumed and the call blocks until the lock is held.
    pub fn lock<'a>(&'a self, token: &mut LockedToken) -> (r: Result<
        (LockedToken, MutexGuard<'a, T>),
        LockError<'a, T>,
    >)
        ensures
            old(token).is_consumed() ==> {
                &&& r matches Err(LockError::TokenConsumed)
                &&& *final(token) == *old(token)
            },
            !old(token).is_consumed() && !admits(self.key().0, self.key().1, old(token).held())
                ==> {
                &&& r matches Err(LockError::OrderViolation)
                &&& *final(token) == *old(token)
            },
            !old(token).is_consumed() && admits(self.key().0, self.key().1, old(token).held())
                ==> {
                &&& final(token).is_consumed()
                &&& final(token).held() == old(token).held()
                &&& match r {
                    Ok((t, _)) => t.held() == Some(self.key()) && !t.is_consumed(),
                    Err(LockError::Poisoned(t, _)) => t.held() == Some(self.key())
                        && !t.is_consumed(),
                    _ => false,
                }
            },
    {
        if token.consumed {
            return Err(LockError::TokenConsumed);
        }
        let permitted = match &token.last {
            None => self.category.may_follow(None),
            Some(c) => self.category.may_follow(Some(c)),
        };
        if !permitted {
            return Err(LockError::OrderViolation);
        }
        token.consumed = true;
        let (guard, poisoned) = lock_mutex(&self.mutex);
        let next = LockedToken { last: Some(self.category.duplicate()), consumed: false };
        if poisoned {
            Err(LockError::Poisoned(next, guard))
        } else {
            Ok((next, guard))
        }
    }
}

} // verus!
