//! What a call of each function does, said of its arguments and its results alone.
//!
//! The contracts of the functions speak through spec functions. Here the same calls are described
//! without them: by the calls that were made on the channels, the lock and the handles, and by what
//! is in the collection before and after.

use std::sync::Arc;

use tokio::sync::mpsc::Permit;
use tokio::sync::mpsc::Sender;
use tokio::sync::Mutex;
use vstd::prelude::*;
use vstd::std_specs::iter::IteratorSpec;

use crate::mpsc::error::SendError;
use crate::mpsc::error::TrySendError;
use crate::mpsc::fan_out::SendEvent;
use crate::mpsc::fan_out::SendStep;
use crate::mpsc::FanOut;

verus! {

/// An offer is a call of [`offer`](crate::mpsc::offer) on that channel with that data.
pub(crate) proof fn an_offer_is_made_to_the_channel<T>(
    chan: Sender<T>,
    data: T,
    outcome: Result<(), TrySendError<T>>,
)
    ensures
        crate::mpsc::offered(chan, data, outcome) <==> call_ensures(
            crate::mpsc::offer::<T>,
            (&chan, data),
            outcome,
        ),
{
}

/// What a channel said when it was asked is what [`closed_now`](crate::mpsc::closed_now) returned.
pub(crate) proof fn an_answer_is_given_by_the_channel<T>(chan: Sender<T>, closed: bool)
    ensures
        crate::mpsc::said_closed(chan, closed) <==> call_ensures(
            crate::mpsc::closed_now::<T>,
            (&chan,),
            closed,
        ),
{
}

/// Data is delivered by a call of `Permit::send` on that permit with that data.
pub proof fn a_delivery_is_made_through_the_permit<'a, T>(permit: Permit<'a, T>, data: T)
    ensures
        crate::mpsc::delivered(permit, data) <==> call_ensures(
            Permit::<'a, T>::send,
            (permit, data),
            (),
        ),
{
}

/// A lock is made over a value by a call of [`lock_over`](crate::mpsc::lock_over) on that value.
pub(crate) proof fn a_lock_is_made_over_the_value<V>(lock: Mutex<V>, value: V)
    ensures
        crate::mpsc::made_over(lock, value) <==> call_ensures(
            crate::mpsc::lock_over::<V>,
            (value,),
            lock,
        ),
{
}

/// What comes out of a lock is what [`guarded`](crate::mpsc::guarded) returned on that lock.
pub(crate) proof fn a_value_comes_out_of_the_lock<V>(value: V, lock: Mutex<V>)
    ensures
        crate::mpsc::came_out_of(value, lock) <==> call_ensures(
            crate::mpsc::guarded::<V>,
            (lock,),
            value,
        ),
{
}

/// Whether a handle was the last one is what [`last_handle`](crate::mpsc::last_handle) found.
pub(crate) proof fn the_last_handle_is_found_so<V>(handle: Arc<V>)
    ensures
        crate::mpsc::was_last(handle, true) <==> call_ensures(
            crate::mpsc::last_handle::<V>,
            (handle,),
            Ok(*handle),
        ),
        crate::mpsc::was_last(handle, false) <==> call_ensures(
            crate::mpsc::last_handle::<V>,
            (handle,),
            Err(handle),
        ),
{
}

/// `FanOut::try_send` can be called on any collection. It offers the data to the channels from the
/// first on, each of which gets that very offer, until one takes it:
///
/// - Every channel before the one that takes it refused this data.
/// - `Err` comes only when every channel of the collection refused this data. It is `Closed` if all
///   of them were closed, and else `Full`. Either way the data comes back.
/// - A channel stays unless it answered its offer with `Closed`. One that did goes.
pub proof fn try_send_offers_until_one_takes_it<T>(
    chans: &mut Vec<Sender<T>>,
    data: T,
    result: Result<(), TrySendError<T>>,
)
    requires
        call_ensures(FanOut::<T>::try_send, (chans, data), result),
    ensures
        exists|tried: Seq<Result<(), TrySendError<T>>>|
            {
                &&& #[trigger] tried.len() <= old(chans)@.len()
                &&& forall|i: int|
                    0 <= i < tried.len() ==> {
                        &&& crate::mpsc::offered(old(chans)@[i], data, #[trigger] tried[i])
                        &&& {
                            ||| tried[i] is Ok && i == tried.len() - 1 && result is Ok
                            ||| tried[i] == Err::<(), _>(TrySendError::Full(data))
                            ||| tried[i] == Err::<(), _>(TrySendError::Closed(data))
                        }
                    }
                &&& result is Ok ==> tried.len() > 0 && tried[tried.len() - 1] is Ok
                &&& result is Err ==> tried.len() == old(chans)@.len()
                &&& result matches Err(TrySendError::Full(back)) ==> {
                    &&& back == data
                    &&& exists|i: int|
                        0 <= i < tried.len() && #[trigger] tried[i] == Err::<(), _>(
                            TrySendError::Full(data),
                        )
                }
                &&& result matches Err(TrySendError::Closed(back)) ==> {
                    &&& back == data
                    &&& forall|i: int|
                        0 <= i < tried.len() ==> #[trigger] tried[i] == Err::<(), _>(
                            TrySendError::Closed(data),
                        )
                    &&& final(chans)@.len() == 0
                }
                &&& forall|i: int|
                    0 <= i < old(chans)@.len() && !(i < tried.len() && tried[i] == Err::<(), _>(
                        TrySendError::Closed(data),
                    )) ==> final(chans)@.contains(#[trigger] old(chans)@[i])
                &&& forall|k: int|
                    0 <= k < final(chans)@.len() ==> exists|i: int|
                        {
                            &&& 0 <= i < old(chans)@.len()
                            &&& #[trigger] old(chans)@[i] == #[trigger] final(chans)@[k]
                            &&& !(i < tried.len() && tried[i] == Err::<(), _>(
                                TrySendError::Closed(data),
                            ))
                        }
                &&& final(chans)@.len() + tried.to_multiset().count(
                    Err(TrySendError::Closed(data)),
                ) == old(chans)@.len()
            },
{
    let before = old(chans)@;
    let after = final(chans)@;
    let tried = choose|tried: Seq<Result<(), TrySendError<T>>>| #[trigger]
        crate::mpsc::tries::try_sent(before, data, tried, after, result);
    let gone = crate::mpsc::tries::closed_in(tried);
    crate::mpsc::tries::lemma_closed_in(tried);
    crate::mpsc::removal::lemma_swept(before, gone);
    crate::mpsc::laws::first_available_channel_takes_it(before, data, tried, after, result);
    crate::mpsc::laws::failure_tells_full_from_closed(before, data, tried, after, result);
    assert forall|i: int| 0 <= i < tried.len() implies {
        &&& crate::mpsc::offered(before[i], data, #[trigger] tried[i])
        &&& {
            ||| tried[i] is Ok && i == tried.len() - 1 && result is Ok
            ||| tried[i] == Err::<(), _>(TrySendError::Full(data))
            ||| tried[i] == Err::<(), _>(TrySendError::Closed(data))
        }
    } by {
        crate::mpsc::laws::refused_offer_hands_the_data_back(before[i], data, tried[i]);
    }
    assert forall|i: int|
        0 <= i < before.len() && !(i < tried.len() && tried[i] == Err::<(), _>(
            TrySendError::Closed(data),
        )) implies after.contains(#[trigger] before[i]) by {
        if gone.contains(i) {
            let k = choose|k: int| 0 <= k < gone.len() && gone[k] == i;
            assert(0 <= gone[k] < tried.len());
        }
    }
    assert forall|k: int| 0 <= k < after.len() implies exists|i: int|
        {
            &&& 0 <= i < before.len()
            &&& #[trigger] before[i] == #[trigger] after[k]
            &&& !(i < tried.len() && tried[i] == Err::<(), _>(TrySendError::Closed(data)))
        } by {
        let i = crate::mpsc::removal::lemma_left_stood_somewhere(before, gone, k);
        assert(before[i] == after[k]);
    }
    lemma_count_of_closed(tried, data);
    assert(tried.len() <= before.len());
}

/// As many places are listed as there are tries that found a closed channel.
proof fn lemma_count_of_closed<T>(tried: Seq<Result<(), TrySendError<T>>>, data: T)
    requires
        forall|i: int|
            0 <= i < tried.len() ==> (crate::mpsc::tries::found_closed(#[trigger] tried[i])
                <==> tried[i] == Err::<(), _>(TrySendError::Closed(data))),
    ensures
        crate::mpsc::tries::closed_in(tried).len() == tried.to_multiset().count(
            Err(TrySendError::Closed(data)),
        ),
    decreases tried.len(),
{
    broadcast use vstd::seq_lib::group_to_multiset_ensures;

    if tried.len() == 0 {
        crate::mpsc::tries::lemma_closed_in(tried);
    } else {
        let rest = tried.drop_last();
        let last = tried[tried.len() - 1];
        assert(forall|i: int| 0 <= i < rest.len() ==> #[trigger] rest[i] == tried[i]);
        lemma_count_of_closed(rest, data);
        assert(rest.push(last) =~= tried);
        crate::mpsc::tries::lemma_closed_in_push(rest, last);
    }
}

/// `FanOut::try_send` can be called on any collection, with any data.
pub proof fn try_send_can_be_called<T>(chans: &mut Vec<Sender<T>>, data: T)
    ensures
        call_requires(FanOut::<T>::try_send, (chans, data)),
{
}

/// `FanOut::send` at its start asks every channel whether it is closed. A channel stays if it says
/// that it is not, and goes if it says that it is. Then the send waits with the data, or fails with
/// it if there is no channel to wait for.
pub proof fn send_start_asks_every_channel<T>(
    chans: &mut Vec<Sender<T>>,
    data: T,
    step: SendStep<T>,
)
    requires
        call_ensures(FanOut::<T>::send, (chans, SendEvent::Start(data)), step),
    ensures
        exists|asked: Seq<bool>|
            {
                &&& #[trigger] asked.len() == old(chans)@.len()
                &&& forall|i: int|
                    0 <= i < asked.len() ==> crate::mpsc::said_closed(
                        old(chans)@[i],
                        #[trigger] asked[i],
                    )
                &&& forall|i: int|
                    0 <= i < asked.len() && !asked[i] ==> final(chans)@.contains(
                        #[trigger] old(chans)@[i],
                    )
                &&& forall|k: int|
                    0 <= k < final(chans)@.len() ==> exists|i: int|
                        {
                            &&& 0 <= i < old(chans)@.len()
                            &&& #[trigger] old(chans)@[i] == #[trigger] final(chans)@[k]
                            &&& !asked[i]
                        }
                &&& final(chans)@.len() + asked.to_multiset().count(true) == old(chans)@.len()
            },
        final(chans)@.len() == 0 ==> step == SendStep::Done(Err(SendError(data))),
        final(chans)@.len() > 0 ==> step == SendStep::Wait(data),
{
    let before = old(chans)@;
    let after = final(chans)@;
    let asked = choose|asked: Seq<bool>| #[trigger]
        crate::mpsc::fan_out::cleaned(before, asked, after);
    let gone = crate::mpsc::removal::listed(asked);
    crate::mpsc::removal::lemma_listed(asked);
    crate::mpsc::removal::lemma_swept(before, gone);
    lemma_count_of_marks(asked);
    assert forall|i: int| 0 <= i < asked.len() && !asked[i] implies after.contains(
        #[trigger] before[i],
    ) by {
        assert(!gone.contains(i));
    }
    assert forall|k: int| 0 <= k < after.len() implies exists|i: int|
        {
            &&& 0 <= i < before.len()
            &&& #[trigger] before[i] == #[trigger] after[k]
            &&& !asked[i]
        } by {
        let i = crate::mpsc::removal::lemma_left_stood_somewhere(before, gone, k);
        assert(before[i] == after[k]);
        assert(!asked[i]);
    }
    assert(asked.len() == before.len());
}

/// As many places are listed as there are marks.
proof fn lemma_count_of_marks(marks: Seq<bool>)
    ensures
        crate::mpsc::removal::listed(marks).len() == marks.to_multiset().count(true),
    decreases marks.len(),
{
    broadcast use vstd::seq_lib::group_to_multiset_ensures;

    if marks.len() > 0 {
        let rest = marks.drop_last();
        lemma_count_of_marks(rest);
        assert(rest.push(marks[marks.len() - 1]) =~= marks);
        crate::mpsc::removal::lemma_listed_push(rest, marks[marks.len() - 1]);
    }
}

/// `FanOut::send`, told that the data was sent, is over, and keeps every channel in its place.
pub proof fn send_is_over_once_the_data_is_sent<T>(chans: &mut Vec<Sender<T>>, step: SendStep<T>)
    requires
        call_ensures(FanOut::<T>::send, (chans, SendEvent::Sent), step),
    ensures
        step == SendStep::<T>::Done(Ok(())),
        final(chans)@ == old(chans)@,
{
}

/// `FanOut::send`, told that the channel at `index` is closed, takes that one out, and no other.
/// The last channel takes its place. Then it waits with the data that it was handed, or fails with
/// it if there is no channel left.
pub proof fn send_takes_out_the_closed_channel<T>(
    chans: &mut Vec<Sender<T>>,
    data: T,
    index: usize,
    step: SendStep<T>,
)
    requires
        index < old(chans)@.len(),
        call_ensures(FanOut::<T>::send, (chans, SendEvent::Closed(data, index)), step),
    ensures
        old(chans)@.to_multiset() == final(chans)@.to_multiset().insert(old(chans)@[index as int]),
        final(chans)@.len() == old(chans)@.len() - 1,
        forall|k: int|
            0 <= k < final(chans)@.len() ==> #[trigger] final(chans)@[k] == if k == index {
                old(chans)@[old(chans)@.len() - 1]
            } else {
                old(chans)@[k]
            },
        final(chans)@.len() == 0 ==> step == SendStep::Done(Err(SendError(data))),
        final(chans)@.len() > 0 ==> step == SendStep::Wait(data),
{
    crate::mpsc::removal::lemma_swap_removed(old(chans)@, index as int);
}

/// `FanOut::send` can be called at the start, after the data was sent, and on a closed channel that
/// is in the collection.
pub proof fn send_can_be_called<T>(chans: &mut Vec<Sender<T>>, data: T, index: usize)
    ensures
        call_requires(FanOut::<T>::send, (chans, SendEvent::Start(data))),
        call_requires(FanOut::<T>::send, (chans, SendEvent::<T>::Sent)),
        index < old(chans)@.len() ==> call_requires(
            FanOut::<T>::send,
            (chans, SendEvent::Closed(data, index)),
        ),
{
}

/// `FanOut::send_locked` with a permit sends this data through this permit, and says so.
pub proof fn send_locked_sends_through_the_permit<'a, T>(
    data: T,
    permit: Permit<'a, T>,
    index: usize,
    event: SendEvent<T>,
)
    requires
        call_ensures(FanOut::<T>::send_locked, (data, Ok(permit), index), event),
    ensures
        call_ensures(Permit::<'a, T>::send, (permit, data), ()),
        event == SendEvent::<T>::Sent,
{
}

/// `FanOut::send_locked` without a permit hands the data back, with the place of the channel.
pub proof fn send_locked_hands_the_data_back<'a, T>(data: T, index: usize, event: SendEvent<T>)
    requires
        call_ensures(
            FanOut::<T>::send_locked,
            (data, Err::<Permit<'a, T>, SendError<()>>(SendError(())), index),
            event,
        ),
    ensures
        event == SendEvent::Closed(data, index),
{
}

/// `FanOut::new` makes its lock over the collection that it is given, and over nothing else.
pub proof fn new_makes_the_lock_over_the_collection<T>(chans: Vec<Sender<T>>, this: FanOut<T>)
    requires
        call_ensures(FanOut::<T>::new, (chans,), this),
    ensures
        crate::mpsc::made_over(*this.chans, chans),
        call_requires(FanOut::<T>::new, (chans,)),
{
}

/// `FanOut::from_iter` makes its lock over a collection of the channels that the iterator yields,
/// all of them, in that order.
pub proof fn from_iter_makes_the_lock_over_what_is_yielded<T, I: Iterator<Item = Sender<T>>>(
    chans: I,
    this: FanOut<T>,
)
    requires
        chans.obeys_prophetic_iter_laws(),
        chans.decrease() is Some,
        call_ensures(FanOut::<T>::from_iter::<I>, (chans,), this),
    ensures
        exists|all: Vec<Sender<T>>|
            all@ == chans.remaining() && #[trigger] crate::mpsc::made_over(*this.chans, all),
{
    crate::mpsc::fan_out::made_with_is_about_the_lock(this, chans.remaining());
}

/// `FanOut::into_inner` hands out what comes out of the lock of this very `FanOut`, whose handle
/// was found to be the last one. Else it hands back this `FanOut`, whose handle was found not to be.
pub proof fn into_inner_goes_by_the_handle<T>(
    this: FanOut<T>,
    result: Result<Vec<Sender<T>>, FanOut<T>>,
)
    requires
        call_ensures(FanOut::<T>::into_inner, (this,), result),
    ensures
        call_requires(FanOut::<T>::into_inner, (this,)),
        result matches Ok(chans) ==> crate::mpsc::was_last(this.chans, true)
            && crate::mpsc::came_out_of(chans, *this.chans),
        result matches Err(back) ==> crate::mpsc::was_last(this.chans, false) && back.chans
            == this.chans,
{
}

/// `FanOut::unwrapped` goes by the outcome that it is given: a lock is opened, and a handle is put
/// into a `FanOut` again.
pub proof fn unwrapped_goes_by_the_outcome<T>(
    outcome: Result<Mutex<Vec<Sender<T>>>, Arc<Mutex<Vec<Sender<T>>>>>,
    result: Result<Vec<Sender<T>>, FanOut<T>>,
)
    requires
        call_ensures(FanOut::<T>::unwrapped, (outcome,), result),
    ensures
        outcome matches Ok(lock) ==> result matches Ok(chans) && crate::mpsc::came_out_of(
            chans,
            lock,
        ),
        outcome matches Err(handle) ==> result matches Err(back) && back.chans == handle,
{
}

/// `FanOut::into_inner` gives back the very collection that `FanOut::new` was given, if the lock
/// between them gives back what it was made over. It does where nothing was sent in between.
pub proof fn into_inner_undoes_new<T>(
    given: Vec<Sender<T>>,
    this: FanOut<T>,
    back: Vec<Sender<T>>,
)
    requires
        call_ensures(FanOut::<T>::new, (given,), this),
        call_ensures(FanOut::<T>::into_inner, (this,), Ok(back)),
        forall|a: Vec<Sender<T>>, b: Vec<Sender<T>>| #[trigger]
            crate::mpsc::made_over(*this.chans, a) && #[trigger] crate::mpsc::came_out_of(
                b,
                *this.chans,
            ) ==> b == a,
    ensures
        back == given,
{
}

/// `FanOut::into_inner` gives back the channels that a `FanOut` was made with, all of them and in
/// order, if its lock gives back what it was made over.
pub proof fn into_inner_undoes_making<T>(
    given: Seq<Sender<T>>,
    this: FanOut<T>,
    back: Vec<Sender<T>>,
)
    requires
        this.made_with(given),
        call_ensures(FanOut::<T>::into_inner, (this,), Ok(back)),
        forall|a: Vec<Sender<T>>, b: Vec<Sender<T>>| #[trigger]
            crate::mpsc::made_over(*this.chans, a) && #[trigger] crate::mpsc::came_out_of(
                b,
                *this.chans,
            ) ==> b@ == a@,
    ensures
        back@ == given,
{
    crate::mpsc::fan_out::made_with_is_about_the_lock(this, given);
}

/// A clone of a `FanOut` has the same handle: the channels are shared, and none is copied.
pub proof fn a_clone_shares_the_lock<T>(this: FanOut<T>, other: FanOut<T>)
    requires
        call_ensures(<FanOut<T> as Clone>::clone, (&this,), other),
    ensures
        other.chans == this.chans,
{
}

/// `note_try` notes the place of a closed channel and of no other, and hands back the data that was
/// not taken.
pub proof fn note_try_notes_closed_channels<T>(
    closed: &mut Vec<usize>,
    index: usize,
    outcome: Result<(), TrySendError<T>>,
    unsent: Option<T>,
)
    requires
        call_ensures(crate::mpsc::tries::note_try::<T>, (closed, index, outcome), unsent),
    ensures
        match outcome {
            Ok(()) => unsent is None && final(closed)@ == old(closed)@,
            Err(TrySendError::Full(data)) => unsent == Some(data) && final(closed)@ == old(closed)@,
            Err(TrySendError::Closed(data)) => unsent == Some(data) && final(closed)@ == old(
                closed,
            )@.push(index),
        },
{
}

/// `drop_closed` can be called on any ascending list of places in the collection. It takes out the
/// elements at those places, and keeps every other one. One that is kept, and whose place is still
/// there, keeps its place.
pub proof fn drop_closed_takes_out_what_is_listed<C>(
    chans: &mut Vec<C>,
    gone: Vec<usize>,
    listed: Seq<int>,
)
    requires
        listed == gone@.map_values(|g: usize| g as int),
        forall|k: int| 0 <= k < gone@.len() ==> #[trigger] gone@[k] < old(chans)@.len(),
        forall|j: int, k: int|
            0 <= j < k < gone@.len() ==> #[trigger] gone@[j] < #[trigger] gone@[k],
    ensures
        call_requires(crate::mpsc::removal::drop_closed::<C>, (chans, gone)),
        call_ensures(crate::mpsc::removal::drop_closed::<C>, (chans, gone), ()) ==> {
            &&& final(chans)@.len() == old(chans)@.len() - gone@.len()
            &&& forall|i: int|
                0 <= i < old(chans)@.len() && !listed.contains(i) ==> {
                    &&& final(chans)@.contains(#[trigger] old(chans)@[i])
                    &&& i < final(chans)@.len() ==> final(chans)@[i] == old(chans)@[i]
                }
            &&& forall|c: C| #[trigger]
                final(chans)@.contains(c) ==> exists|i: int|
                    {
                        &&& 0 <= i < old(chans)@.len()
                        &&& !listed.contains(i)
                        &&& #[trigger] old(chans)@[i] == c
                    }
        },
{
    assert(listed =~= crate::mpsc::removal::places(gone@));
    lemma_sweep(old(chans)@, listed);
}

/// What a sweep leaves.
proof fn lemma_sweep<C>(s: Seq<C>, gone: Seq<int>)
    requires
        crate::mpsc::removal::ascending_within(gone, s.len()),
    ensures
        ({
            let left = crate::mpsc::removal::swept(s, gone);
            &&& left.len() == s.len() - gone.len()
            &&& forall|i: int|
                0 <= i < s.len() && !gone.contains(i) ==> left.contains(#[trigger] s[i]) && (i
                    < left.len() ==> left[i] == s[i])
            &&& forall|c: C| #[trigger]
                left.contains(c) ==> exists|i: int|
                    {
                        &&& 0 <= i < s.len()
                        &&& !gone.contains(i)
                        &&& #[trigger] s[i] == c
                    }
        }),
{
    let left = crate::mpsc::removal::swept(s, gone);
    crate::mpsc::removal::lemma_swept(s, gone);
    lemma_kept_in_place(s, gone);
    assert forall|i: int| 0 <= i < s.len() && !gone.contains(i) implies left.contains(
        #[trigger] s[i],
    ) && (i < left.len() ==> left[i] == s[i]) by {
        assert(i < left.len() ==> crate::mpsc::removal::swept(s, gone)[i] == s[i]);
    }
    assert forall|c: C| #[trigger] left.contains(c) implies exists|i: int|
        {
            &&& 0 <= i < s.len()
            &&& !gone.contains(i)
            &&& #[trigger] s[i] == c
        } by {
        let k = choose|k: int| 0 <= k < left.len() && left[k] == c;
        let i = crate::mpsc::removal::lemma_left_stood_somewhere(s, gone, k);
        assert(s[i] == left[k]);
    }
}

/// An element that a sweep keeps, and whose place is still there, keeps its place.
proof fn lemma_kept_in_place<C>(s: Seq<C>, gone: Seq<int>)
    requires
        crate::mpsc::removal::ascending_within(gone, s.len()),
    ensures
        forall|i: int|
            0 <= i < crate::mpsc::removal::swept(s, gone).len() && !gone.contains(i)
                ==> #[trigger] crate::mpsc::removal::swept(s, gone)[i] == s[i],
    decreases gone.len(),
{
    crate::mpsc::removal::lemma_swept(s, gone);
    if gone.len() > 0 {
        let last = gone.last();
        let rest = gone.drop_last();
        let next = crate::mpsc::removal::swap_removed(s, last);
        assert(gone[gone.len() - 1] == last);
        crate::mpsc::removal::lemma_rest_ascending(gone, s.len());
        lemma_kept_in_place(next, rest);
        crate::mpsc::removal::lemma_swept(next, rest);
        assert forall|i: int|
            0 <= i < crate::mpsc::removal::swept(s, gone).len() && !gone.contains(
                i,
            ) implies #[trigger] crate::mpsc::removal::swept(s, gone)[i] == s[i] by {
            if rest.contains(i) {
                let k = choose|k: int| 0 <= k < rest.len() && rest[k] == i;
                assert(gone[k] == i);
            }
            assert(next[i] == s[i]);
        }
    }
}

/// `drop_closed` goes from the last listed place to the first. With no place listed it does
/// nothing. With one place more, it first puts the last element into that place, and then does
/// what it does with the others.
pub proof fn drop_closed_goes_one_by_one<C>(
    chans: &mut Vec<C>,
    gone: Vec<usize>,
    others: &mut Vec<C>,
    rest: Vec<usize>,
)
    requires
        call_ensures(crate::mpsc::removal::drop_closed::<C>, (chans, gone), ()),
        call_ensures(crate::mpsc::removal::drop_closed::<C>, (others, rest), ()),
    ensures
        gone@.len() == 0 ==> final(chans)@ == old(chans)@,
        gone@.len() > 0 && rest@ == gone@.drop_last() && old(others)@ == old(chans)@.update(
            gone@.last() as int,
            old(chans)@.last(),
        ).drop_last() ==> final(chans)@ == final(others)@,
{
    if gone@.len() > 0 {
        assert(crate::mpsc::removal::places(gone@.drop_last()) =~= crate::mpsc::removal::places(
            gone@,
        ).drop_last());
    }
}

/// `conclude` can be called on any ascending list of places in the collection. It takes out what
/// `drop_closed` takes out, given the same. Data that was not sent comes back: with `Closed` if
/// every place was listed, and else with `Full`.
pub proof fn conclude_drops_and_goes_by_what_is_left<C, T>(
    chans: &mut Vec<C>,
    closed: Vec<usize>,
    unsent: Option<T>,
    result: Result<(), TrySendError<T>>,
    others: &mut Vec<C>,
)
    requires
        forall|k: int| 0 <= k < closed@.len() ==> #[trigger] closed@[k] < old(chans)@.len(),
        forall|j: int, k: int|
            0 <= j < k < closed@.len() ==> #[trigger] closed@[j] < #[trigger] closed@[k],
    ensures
        call_requires(crate::mpsc::tries::conclude::<C, T>, (chans, closed, unsent)),
        call_ensures(crate::mpsc::tries::conclude::<C, T>, (chans, closed, unsent), result) ==> {
            &&& match unsent {
                None => result is Ok,
                Some(data) => if closed@.len() == old(chans)@.len() {
                    result == Err::<(), _>(TrySendError::Closed(data))
                } else {
                    result == Err::<(), _>(TrySendError::Full(data))
                },
            }
            &&& final(chans)@.len() == old(chans)@.len() - closed@.len()
            &&& old(others)@ == old(chans)@ && call_ensures(
                crate::mpsc::removal::drop_closed::<C>,
                (others, closed),
                (),
            ) ==> final(chans)@ == final(others)@
        },
{
    let listed = closed@.map_values(|g: usize| g as int);
    assert(listed =~= crate::mpsc::removal::places(closed@));
    lemma_sweep(old(chans)@, listed);
}

/// `FanOut::try_send` leaves what `drop_closed` leaves, given the places of the channels that
/// answered with `Closed`.
pub proof fn try_send_drops_the_closed_channels<T>(
    chans: &mut Vec<Sender<T>>,
    data: T,
    result: Result<(), TrySendError<T>>,
    others: &mut Vec<Sender<T>>,
    gone: Vec<usize>,
    listed: Seq<int>,
)
    requires
        call_ensures(FanOut::<T>::try_send, (chans, data), result),
        call_ensures(crate::mpsc::removal::drop_closed::<Sender<T>>, (others, gone), ()),
        old(others)@ == old(chans)@,
        listed == gone@.map_values(|g: usize| g as int),
        forall|j: int, k: int|
            0 <= j < k < gone@.len() ==> #[trigger] gone@[j] < #[trigger] gone@[k],
    ensures
        exists|tried: Seq<Result<(), TrySendError<T>>>|
            {
                &&& #[trigger] tried.len() <= old(chans)@.len()
                &&& forall|i: int|
                    0 <= i < tried.len() ==> crate::mpsc::offered(
                        old(chans)@[i],
                        data,
                        #[trigger] tried[i],
                    )
                &&& (forall|i: int| #[trigger]
                    listed.contains(i) <==> 0 <= i < tried.len()
                        && tried[i] == Err::<(), _>(TrySendError::Closed(data))) ==> final(chans)@
                    == final(others)@
            },
{
    let before = old(chans)@;
    let tried = choose|tried: Seq<Result<(), TrySendError<T>>>| #[trigger]
        crate::mpsc::tries::try_sent(before, data, tried, final(chans)@, result);
    let found = crate::mpsc::tries::closed_in(tried);
    assert(listed =~= crate::mpsc::removal::places(gone@));
    crate::mpsc::tries::lemma_closed_in(tried);
    if forall|i: int| #[trigger]
        listed.contains(i) <==> 0 <= i < tried.len() && tried[i] == Err::<(), _>(
            TrySendError::Closed(data),
        ) {
        assert forall|i: int| #[trigger] listed.contains(i) <==> found.contains(i) by {
            if 0 <= i < tried.len() {
                assert(crate::mpsc::offered(before[i], data, tried[i]));
            }
            if found.contains(i) {
                let k = choose|k: int| 0 <= k < found.len() && found[k] == i;
                assert(0 <= found[k] < tried.len());
            }
        }
        lemma_same_places(listed, found);
    }
    assert(tried.len() <= before.len());
}

/// `FanOut::send` at its start leaves what `drop_closed` leaves, given the places of the channels
/// that said they were closed.
pub proof fn send_start_drops_the_closed_channels<T>(
    chans: &mut Vec<Sender<T>>,
    data: T,
    step: SendStep<T>,
    others: &mut Vec<Sender<T>>,
    gone: Vec<usize>,
    listed: Seq<int>,
)
    requires
        call_ensures(FanOut::<T>::send, (chans, SendEvent::Start(data)), step),
        call_ensures(crate::mpsc::removal::drop_closed::<Sender<T>>, (others, gone), ()),
        old(others)@ == old(chans)@,
        listed == gone@.map_values(|g: usize| g as int),
        forall|j: int, k: int|
            0 <= j < k < gone@.len() ==> #[trigger] gone@[j] < #[trigger] gone@[k],
    ensures
        exists|asked: Seq<bool>|
            {
                &&& #[trigger] asked.len() == old(chans)@.len()
                &&& forall|i: int|
                    0 <= i < asked.len() ==> crate::mpsc::said_closed(
                        old(chans)@[i],
                        #[trigger] asked[i],
                    )
                &&& (forall|i: int| #[trigger]
                    listed.contains(i) <==> 0 <= i < asked.len()
                        && asked[i]) ==> final(chans)@ == final(others)@
            },
{
    let before = old(chans)@;
    let asked = choose|asked: Seq<bool>| #[trigger]
        crate::mpsc::fan_out::cleaned(before, asked, final(chans)@);
    let found = crate::mpsc::removal::listed(asked);
    assert(listed =~= crate::mpsc::removal::places(gone@));
    crate::mpsc::removal::lemma_listed(asked);
    if forall|i: int| #[trigger] listed.contains(i) <==> 0 <= i < asked.len() && asked[i] {
        assert forall|i: int| #[trigger] listed.contains(i) <==> found.contains(i) by {
            if found.contains(i) {
                let k = choose|k: int| 0 <= k < found.len() && found[k] == i;
                assert(0 <= found[k] < asked.len());
            }
        }
        lemma_same_places(listed, found);
    }
    assert(asked.len() == before.len());
}

/// Two lists of the same places, both in ascending order, are the same.
proof fn lemma_same_places(a: Seq<int>, b: Seq<int>)
    requires
        forall|j: int, k: int| 0 <= j < k < a.len() ==> #[trigger] a[j] < #[trigger] a[k],
        forall|j: int, k: int| 0 <= j < k < b.len() ==> #[trigger] b[j] < #[trigger] b[k],
        forall|i: int| #[trigger] a.contains(i) <==> b.contains(i),
    ensures
        a == b,
    decreases a.len(),
{
    if a.len() == 0 {
        if b.len() > 0 {
            assert(a.contains(b[0]) <==> b.contains(b[0]));
        }
    } else {
        let (x, y) = (a[a.len() - 1], b[b.len() - 1]);
        assert(a.contains(x) <==> b.contains(x));
        let k = choose|k: int| 0 <= k < b.len() && b[k] == x;
        assert(b.contains(y));
        assert(a.contains(y));
        let j = choose|j: int| 0 <= j < a.len() && a[j] == y;
        assert(x == y);
        let (p, q) = (a.drop_last(), b.drop_last());
        assert forall|i: int| #[trigger] p.contains(i) <==> q.contains(i) by {
            assert(a.contains(i) <==> b.contains(i));
            if p.contains(i) {
                let m = choose|m: int| 0 <= m < p.len() && p[m] == i;
                assert(a[m] == i);
                let n = choose|n: int| 0 <= n < b.len() && b[n] == i;
                assert(q[n] == i);
            }
            if q.contains(i) {
                let m = choose|m: int| 0 <= m < q.len() && q[m] == i;
                assert(b[m] == i);
                let n = choose|n: int| 0 <= n < a.len() && a[n] == i;
                assert(p[n] == i);
            }
        }
        lemma_same_places(p, q);
        assert(a =~= p.push(x));
        assert(b =~= q.push(y));
    }
}

} // verus!
