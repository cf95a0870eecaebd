//! The fan-out itself: the channels behind their lock, and the steps of a send.

use std::sync::Arc;

use tokio::sync::mpsc::Permit;
use tokio::sync::mpsc::Sender;
use tokio::sync::Mutex;
use vstd::prelude::*;
use vstd::std_specs::iter::IteratorSpec;

use crate::mpsc::another_handle;
use crate::mpsc::closed_now;
use crate::mpsc::error::SendError;
use crate::mpsc::guarded;
use crate::mpsc::last_handle;
use crate::mpsc::lock_over;
use crate::mpsc::offer;
use crate::mpsc::removal::drop_closed;
use crate::mpsc::tries::conclude;
use crate::mpsc::tries::note_try;
use crate::mpsc::tries::Try;

verus! {

/// Handles fanning out to multiple `tokio::sync::mpsc` channels.
///
/// Can be cheaply cloned to share the target channels.
///
/// A send holds the lock on `chans` from its first step to its last. The functions that take the
/// collection of channels are those steps: they work on what the lock guards.
#[verifier::reject_recursive_types(T)]
pub struct FanOut<T> {
    /// The target channels.
    pub chans: Arc<Mutex<Vec<Sender<T>>>>,
}

/// What a send that waits has come to.
#[derive(Debug, PartialEq, Eq)]
pub enum SendEvent<T> {
    /// It starts, with the data to be sent.
    Start(T),
    /// A channel took the data.
    Sent,
    /// The channel at this place turned out to be closed. Here is the data again.
    Closed(T, usize),
}

/// What a send that waits does next.
#[derive(Debug, PartialEq, Eq)]
pub enum SendStep<T> {
    /// Wait until one of the channels has room, or is found closed, and then go on with
    /// [`FanOut::send_locked`]. There is at least one channel to wait for.
    Wait(T),
    /// Return this.
    Done(Result<(), SendError<T>>),
}

/// The next step of a send that has `data` still to be sent and `chans` to choose from.
pub open spec fn wait_or_give_up<C, T>(chans: Seq<C>, data: T) -> SendStep<T> {
    if chans.len() == 0 {
        SendStep::Done(Err(SendError(data)))
    } else {
        SendStep::Wait(data)
    }
}

/// The channels of `chans` that said they were closed are out, and `left` is what is left. `asked`
/// are the answers, in order.
pub open spec fn cleaned<T>(chans: Seq<Sender<T>>, asked: Seq<bool>, left: Seq<Sender<T>>) -> bool {
    &&& asked.len() == chans.len()
    &&& forall|i: int|
        0 <= i < asked.len() ==> crate::mpsc::said_closed(chans[i], #[trigger] asked[i])
    &&& left == crate::mpsc::removal::swept(chans, crate::mpsc::removal::listed(asked))
}

/// The collection of channels after an `event` that is not the start.
pub open spec fn chans_after<C, T>(chans: Seq<C>, event: SendEvent<T>) -> Seq<C> {
    match event {
        SendEvent::Closed(_, index) => crate::mpsc::removal::swap_removed(chans, index as int),
        _ => chans,
    }
}

/// The step that follows `event`, when `chans` are the channels after it.
pub open spec fn step_after<C, T>(chans: Seq<C>, event: SendEvent<T>) -> SendStep<T> {
    match event {
        SendEvent::Start(data) => wait_or_give_up(chans, data),
        SendEvent::Sent => SendStep::Done(Ok(())),
        SendEvent::Closed(data, _) => wait_or_give_up(chans, data),
    }
}

impl<T> FanOut<T> {
    /// The lock is a possible outcome of making one over a collection that holds these channels, in
    /// this order.
    pub closed spec fn made_with(self, chans: Seq<Sender<T>>) -> bool {
        exists|all: Vec<Sender<T>>| #[trigger]
            crate::mpsc::made_over(*self.chans, all) && all@ == chans
    }

    /// Constructs a new `FanOut` from a `Vec<Sender<T>>`.
    pub fn new(chans: Vec<Sender<T>>) -> (this: Self)
        ensures
            this.made_with(chans@),
            crate::mpsc::made_over(*this.chans, chans),
    {
        let ghost all = chans;
        let lock = lock_over(chans);
        assert(crate::mpsc::made_over(lock, all));
        let this = FanOut { chans: Arc::new(lock) };
        assert(*this.chans == lock);
        this
    }

    /// Constructs a new `FanOut` from the channels that `chans` yields, each once, in that order.
    ///
    /// `chans` has to come to an end, and to keep to the rules for iterators.
    pub fn from_iter<I: Iterator<Item = Sender<T>>>(chans: I) -> (this: Self)
        requires
            chans.obeys_prophetic_iter_laws(),
            chans.decrease() is Some,
        ensures
            this.made_with(chans.remaining()),
    {
        let mut items = chans;
        let mut all: Vec<Sender<T>> = Vec::new();
        loop
            invariant
                items.obeys_prophetic_iter_laws(),
                items.decrease() is Some,
                all@ + items.remaining() == chans.remaining(),
            ensures
                all@ == chans.remaining(),
            decreases items.decrease()->0,
        {
            match items.next() {
                Some(chan) => {
                    all.push(chan);
                },
                None => {
                    break;
                },
            }
        }
        Self::new(all)
    }

    /// Consumes the `FanOut` and returns the inner `Vec<Sender<T>>`.
    ///
    /// Note that if data was sent to the channels and any were encountered that were closed, they
    /// will have been removed from the collection, and the collection may not be in the original
    /// order. The collection may even be empty.
    ///
    /// If the `FanOut` is in use, that is if another handle shares its channels, it will return
    /// `Err` with itself in it. You should try again once all pending sends have completed.
    pub fn into_inner(this: Self) -> (result: Result<Vec<Sender<T>>, Self>)
        ensures
            match result {
                Ok(chans) => crate::mpsc::was_last(this.chans, true) && crate::mpsc::came_out_of(
                    chans,
                    *this.chans,
                ),
                Err(back) => crate::mpsc::was_last(this.chans, false) && back == this,
            },
        no_unwind
    {
        Self::unwrapped(last_handle(this.chans))
    }

    /// What [`FanOut::into_inner`] returns, by what came of its handle to the channels: the lock on
    /// them, where no other handle shares it, or the handle again, where one does.
    pub fn unwrapped(
        outcome: Result<Mutex<Vec<Sender<T>>>, Arc<Mutex<Vec<Sender<T>>>>>,
    ) -> (result: Result<Vec<Sender<T>>, Self>)
        ensures
            match outcome {
                Ok(lock) => result matches Ok(chans) && crate::mpsc::came_out_of(chans, lock),
                Err(handle) => result matches Err(back) && back.chans == handle,
            },
        no_unwind
    {
        match outcome {
            Ok(lock) => Ok(guarded(lock)),
            Err(chans) => Err(FanOut { chans }),
        }
    }

    /// Sends to any single channel that's ready to receive data: one step of it.
    ///
    /// Starts with [`SendEvent::Start`].
    ///
    /// Any channels that are closed are removed: those that are closed at the start, and any that
    /// is found closed later. If there are no remaining channels, the step is to return `Err`.
    pub fn send(chans: &mut Vec<Sender<T>>, event: SendEvent<T>) -> (step: SendStep<T>)
        requires
            event matches SendEvent::Closed(_, index) ==> index < old(chans)@.len(),
        ensures
            match event {
                SendEvent::Start(_) => exists|asked: Seq<bool>| #[trigger]
                    cleaned(old(chans)@, asked, final(chans)@),
                _ => final(chans)@ == chans_after(old(chans)@, event),
            },
            step == step_after(final(chans)@, event),
    {
        let data = match event {
            SendEvent::Start(data) => {
                Self::clean(chans);
                data
            },
            SendEvent::Sent => {
                return SendStep::Done(Ok(()));
            },
            SendEvent::Closed(data, index) => {
                // The channel is no longer valid. Remove it from the collection and try again.
                chans.swap_remove(index);
                data
            },
        };
        if chans.is_empty() {
            // There are no more usable channels.
            SendStep::Done(Err(SendError(data)))
        } else {
            SendStep::Wait(data)
        }
    }

    /// Removes the channels that are closed.
    fn clean(chans: &mut Vec<Sender<T>>)
        ensures
            exists|asked: Seq<bool>| #[trigger] cleaned(old(chans)@, asked, final(chans)@),
    {
        let mut closed: Vec<usize> = Vec::new();
        let mut next: usize = 0;
        let ghost given = chans@;
        let ghost mut asked: Seq<bool> = Seq::empty();
        while next < chans.len()
            invariant
                chans@ == given,
                given == old(chans)@,
                next <= given.len(),
                asked.len() == next,
                crate::mpsc::removal::places(closed@) == crate::mpsc::removal::listed(asked),
                forall|i: int|
                    0 <= i < asked.len() ==> crate::mpsc::said_closed(given[i], #[trigger] asked[i]),
            decreases given.len() - next,
        {
            let answer = closed_now(&chans[next]);
            if answer {
                closed.push(next);
            }
            proof {
                crate::mpsc::removal::lemma_listed_push(asked, answer);
                asked = asked.push(answer);
                assert(crate::mpsc::removal::places(closed@) =~= crate::mpsc::removal::listed(
                    asked,
                ));
            }
            next = next + 1;
        }
        proof {
            crate::mpsc::removal::lemma_listed(asked);
        }
        drop_closed(chans, closed);
        assert(cleaned(given, asked, chans@));
    }

    /// Goes on after a wait. `reserved` is what the channel at `index` came up with: room for the
    /// data, which then goes there, or that it is closed.
    pub fn send_locked(
        data: T,
        reserved: Result<Permit<'_, T>, SendError<()>>,
        index: usize,
    ) -> (event: SendEvent<T>)
        ensures
            match reserved {
                Ok(permit) => {
                    &&& event == SendEvent::<T>::Sent
                    &&& crate::mpsc::delivered(permit, data)
                    &&& call_ensures(Permit::<'_, T>::send, (permit, data), ())
                },
                Err(_) => event == SendEvent::Closed(data, index),
            },
    {
        match reserved {
            Ok(permit) => {
                permit.send(data);
                SendEvent::Sent
            },
            Err(_) => SendEvent::Closed(data, index),
        }
    }

    /// Tries to send to the first available channel, trying one at a time, in order.
    ///
    /// Any closed channels encountered are removed. If there are no open channels, or the open
    /// channels are all full, `Err` is returned.
    pub fn try_send(chans: &mut Vec<Sender<T>>, data: T) -> (result: Try<T>)
        ensures
            exists|tried: Seq<Try<T>>| #[trigger]
                crate::mpsc::tries::try_sent(old(chans)@, data, tried, final(chans)@, result),
    {
        let mut closed: Vec<usize> = Vec::new();
        let mut next: usize = 0;
        let mut pending = data;
        let ghost given = chans@;
        let ghost mut tried: Seq<Try<T>> = Seq::empty();
        while next < chans.len()
            invariant
                chans@ == given,
                next <= given.len(),
                tried.len() == next,
                pending == data,
                crate::mpsc::removal::places(closed@) == crate::mpsc::tries::closed_in(tried),
                forall|i: int|
                    0 <= i < tried.len() ==> crate::mpsc::offered(
                        given[i],
                        data,
                        #[trigger] tried[i],
                    ),
                forall|i: int| 0 <= i < tried.len() ==> #[trigger] tried[i] is Err,
                given == old(chans)@,
            decreases given.len() - next,
        {
            let outcome = offer(&chans[next], pending);
            proof {
                crate::mpsc::tries::lemma_closed_in_push(tried, outcome);
                tried = tried.push(outcome);
                crate::mpsc::tries::lemma_closed_in(tried);
            }
            let unsent = note_try(&mut closed, next, outcome);
            assert(crate::mpsc::removal::places(closed@) =~= crate::mpsc::tries::closed_in(tried));
            match unsent {
                None => {
                    let result = conclude(chans, closed, None);
                    assert(crate::mpsc::tries::try_sent(given, data, tried, chans@, result));
                    return result;
                },
                Some(back) => {
                    pending = back;
                },
            }
            next = next + 1;
        }
        proof {
            crate::mpsc::tries::lemma_closed_in(tried);
        }
        let result = conclude(chans, closed, Some(pending));
        assert(crate::mpsc::tries::try_sent(given, data, tried, chans@, result));
        result
    }
}

/// A `FanOut` is made with channels if its lock is made over a collection of those channels, all of
/// them, in that order.
pub proof fn made_with_is_about_the_lock<T>(this: FanOut<T>, chans: Seq<Sender<T>>)
    ensures
        this.made_with(chans) <==> exists|all: Vec<Sender<T>>|
            all@ == chans && #[trigger] crate::mpsc::made_over(*this.chans, all),
{
}

impl<T> Clone for FanOut<T> {
    /// Another `FanOut` that shares the target channels of this one.
    fn clone(&self) -> (other: Self)
        ensures
            other == *self,
    {
        FanOut { chans: another_handle(&self.chans) }
    }
}

impl<T> From<Vec<Sender<T>>> for FanOut<T> {
    /// Constructs a new `FanOut` from a collection of channels.
    fn from(chans: Vec<Sender<T>>) -> (this: Self)
        ensures
            this.made_with(chans@),
            crate::mpsc::made_over(*this.chans, chans),
    {
        FanOut::new(chans)
    }
}

impl<T> vstd::std_specs::convert::FromSpecImpl<Vec<Sender<T>>> for FanOut<T> {
    /// Two calls on the same channels make two different locks.
    open spec fn obeys_from_spec() -> bool {
        false
    }

    open spec fn from_spec(chans: Vec<Sender<T>>) -> Self {
        arbitrary()
    }
}

} // verus!
