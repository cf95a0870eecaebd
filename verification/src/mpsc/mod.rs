//! Fanning out to multiple bounded channels.
//!
//! This file holds what the fan-out takes from `tokio` and from the standard library on trust.
//! A channel, a lock and a shared handle each hold state that other tasks change. So no function
//! of the arguments says what a call on one of them returns. `call_ensures(f, args, out)` says that
//! `out` is a possible outcome of a call of `f` on `args`. It serves as a record of calls: Verus
//! gives it after such a call, for the outcome of that call, and nothing else here gives it for
//! these functions. Below, each of them is followed by the predicate that says it.

use std::sync::Arc;

use tokio::sync::mpsc::Permit;
use tokio::sync::mpsc::Sender;
use tokio::sync::Mutex;
use vstd::prelude::*;

use crate::mpsc::error::TrySendError;

pub mod calls;
pub mod error;
pub mod fan_out;
pub mod history;
pub mod laws;
pub mod removal;
pub mod slots;
pub mod tries;

pub use crate::mpsc::fan_out::FanOut;

verus! {

/// The sending end of a bounded channel, `tokio::sync::mpsc::Sender`.
#[verifier::external_type_specification]
#[verifier::external_body]
#[verifier::reject_recursive_types(T)]
pub struct ExSender<T>(tokio::sync::mpsc::Sender<T>);

/// Room for one value, reserved in a channel, `tokio::sync::mpsc::Permit`.
#[verifier::external_type_specification]
#[verifier::external_body]
#[verifier::reject_recursive_types(T)]
pub struct ExPermit<'a, T>(tokio::sync::mpsc::Permit<'a, T>);

/// A lock that is waited for asynchronously, `tokio::sync::Mutex`.
#[verifier::external_type_specification]
#[verifier::external_body]
#[verifier::reject_recursive_types(T)]
pub struct ExMutex<T: ?Sized>(tokio::sync::Mutex<T>);

/// `tokio::sync::mpsc::Sender::try_send`: sends `data` if the channel is open and has room.
/// Otherwise it hands back the same data, and tells a full channel from a closed one. Which of
/// the three it is rests on the channel's state, and no clause says.
#[verifier::external_body]
pub(crate) fn offer<T>(chan: &Sender<T>, data: T) -> (outcome: Result<(), TrySendError<T>>)
    ensures
        outcome matches Err(TrySendError::Full(back)) ==> back == data,
        outcome matches Err(TrySendError::Closed(back)) ==> back == data,
{
    match chan.try_send(data) {
        Ok(()) => Ok(()),
        Err(tokio::sync::mpsc::error::TrySendError::Full(back)) => Err(TrySendError::Full(back)),
        Err(tokio::sync::mpsc::error::TrySendError::Closed(back)) => {
            Err(TrySendError::Closed(back))
        },
    }
}

/// `outcome` is a possible outcome of offering `data` to `chan`. Known once an offer had it.
pub closed spec fn offered<T>(
    chan: Sender<T>,
    data: T,
    outcome: Result<(), TrySendError<T>>,
) -> bool {
    call_ensures(offer::<T>, (&chan, data), outcome)
}

/// `tokio::sync::mpsc::Sender::is_closed`: whether the channel has been closed. That rests on the
/// channel's state, and no clause says.
#[verifier::external_body]
pub(crate) fn closed_now<T>(chan: &Sender<T>) -> (closed: bool) {
    chan.is_closed()
}

/// `closed` is a possible answer of `chan`, asked whether it is closed. Known once it answered so.
pub closed spec fn said_closed<T>(chan: Sender<T>, closed: bool) -> bool {
    call_ensures(closed_now::<T>, (&chan,), closed)
}

/// `tokio::sync::mpsc::Permit::send`: puts `value` into the room that the permit holds. Returns
/// nothing, and does not fail.
pub assume_specification<'a, T>[ tokio::sync::mpsc::Permit::<'a, T>::send ](
    permit: Permit<'a, T>,
    value: T,
);

/// Putting `data` into the room that `permit` holds can return. Known once it did.
pub closed spec fn delivered<'a, T>(permit: Permit<'a, T>, data: T) -> bool {
    call_ensures(Permit::<'a, T>::send, (permit, data), ())
}

/// `tokio::sync::Mutex::new`: a lock, not held, over `value`.
#[verifier::external_body]
pub(crate) fn lock_over<V>(value: V) -> (lock: Mutex<V>) {
    Mutex::new(value)
}

/// `lock` is a possible outcome of making a lock over `value`. Known once it was made so.
pub closed spec fn made_over<V>(lock: Mutex<V>, value: V) -> bool {
    call_ensures(lock_over::<V>, (value,), lock)
}

/// `tokio::sync::Mutex::into_inner`: ends the lock and hands out what it guards. That is what
/// the last holder of the lock left there, and no clause says what that was. It does not panic.
#[verifier::external_body]
pub(crate) fn guarded<V>(lock: Mutex<V>) -> (value: V)
    no_unwind
{
    lock.into_inner()
}

/// `value` can come out of `lock` when it is ended. Known once it did.
pub closed spec fn came_out_of<V>(value: V, lock: Mutex<V>) -> bool {
    call_ensures(guarded::<V>, (lock,), value)
}

/// `std::sync::Arc::try_unwrap`: what the handle shares, if there is no other handle to it, and
/// else the same handle again. Whether there is another one, no clause says. It does not panic.
#[verifier::external_body]
pub(crate) fn last_handle<V>(handle: Arc<V>) -> (outcome: Result<V, Arc<V>>)
    ensures
        outcome matches Ok(value) ==> value == *handle,
        outcome matches Err(back) ==> back == handle,
    no_unwind
{
    Arc::try_unwrap(handle)
}

/// `handle` can turn out to be the last one to what it shares (or, if not `last`, can turn out not
/// to be). Known once it did.
pub closed spec fn was_last<V>(handle: Arc<V>, last: bool) -> bool {
    if last {
        call_ensures(last_handle::<V>, (handle,), Ok(*handle))
    } else {
        call_ensures(last_handle::<V>, (handle,), Err(handle))
    }
}

/// `std::sync::Arc::clone`: another handle to the same thing.
#[verifier::external_body]
pub(crate) fn another_handle<V>(handle: &Arc<V>) -> (other: Arc<V>)
    ensures
        other == *handle,
{
    Arc::clone(handle)
}

} // verus!
