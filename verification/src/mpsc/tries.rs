//! Going over channels, one try at a time.

use tokio::sync::mpsc::Sender;
use vstd::prelude::*;

use crate::mpsc::error::TrySendError;
use crate::mpsc::removal;
use crate::mpsc::removal::drop_closed;

verus! {

/// How one channel took an offer of data.
pub type Try<T> = Result<(), TrySendError<T>>;

/// The data that is still to be sent after a try, if the channel did not take it.
pub open spec fn unsent_after<T>(outcome: Try<T>) -> Option<T> {
    match outcome {
        Ok(()) => None,
        Err(TrySendError::Full(data)) => Some(data),
        Err(TrySendError::Closed(data)) => Some(data),
    }
}

/// The channel that was tried turned out to be closed.
pub open spec fn found_closed<T>(outcome: Try<T>) -> bool {
    outcome matches Err(TrySendError::Closed(_))
}

/// The places, in ascending order, at which `tries` found a closed channel.
pub open spec fn closed_in<T>(tries: Seq<Try<T>>) -> Seq<int> {
    removal::listed(tries.map_values(|outcome: Try<T>| found_closed(outcome)))
}

/// `tries` went over `chans` in order, offering `data` to each, up to the first that took it.
pub open spec fn tried_in_order<T>(chans: Seq<Sender<T>>, data: T, tries: Seq<Try<T>>) -> bool {
    &&& tries.len() <= chans.len()
    &&& forall|i: int|
        0 <= i < tries.len() ==> crate::mpsc::offered(chans[i], data, #[trigger] tries[i])
    &&& forall|i: int| 0 <= i < tries.len() - 1 ==> #[trigger] tries[i] is Err
    &&& tries.len() < chans.len() ==> tries.len() > 0 && tries.last() is Ok
}

/// What a send that does not wait comes to, when `unsent` is the data that no channel took and
/// `left` are the channels that are still in the collection.
pub open spec fn verdict<C, T>(unsent: Option<T>, left: Seq<C>) -> Try<T> {
    match unsent {
        None => Ok(()),
        Some(data) => if left.len() == 0 {
            Err(TrySendError::Closed(data))
        } else {
            Err(TrySendError::Full(data))
        },
    }
}

/// The data that is left to be sent when `tries` are over.
pub open spec fn unsent_by<T>(data: T, tries: Seq<Try<T>>) -> Option<T> {
    if tries.len() > 0 && tries.last() is Ok {
        None
    } else {
        Some(data)
    }
}

/// Sending `data` without waiting took `chans` to `left` and gave `result`, by way of `tries`.
pub open spec fn try_sent<T>(
    chans: Seq<Sender<T>>,
    data: T,
    tries: Seq<Try<T>>,
    left: Seq<Sender<T>>,
    result: Try<T>,
) -> bool {
    &&& tried_in_order(chans, data, tries)
    &&& left == removal::swept(chans, closed_in(tries))
    &&& result == verdict(unsent_by(data, tries), left)
}

/// Takes note of how the channel at `index` took an offer: adds `index` to `closed` if the
/// channel was closed, and hands back the data if it is still to be sent.
pub fn note_try<T>(closed: &mut Vec<usize>, index: usize, outcome: Try<T>) -> (unsent: Option<T>)
    ensures
        unsent == unsent_after(outcome),
        final(closed)@ == if found_closed(outcome) {
            old(closed)@.push(index)
        } else {
            old(closed)@
        },
{
    match outcome {
        Ok(()) => None,
        Err(TrySendError::Closed(data)) => {
            closed.push(index);
            Some(data)
        },
        Err(TrySendError::Full(data)) => Some(data),
    }
}

/// Ends a send that does not wait: removes the channels at the places that `closed` lists, and
/// says how the send went. `unsent` is the data, if no channel took it.
pub fn conclude<C, T>(chans: &mut Vec<C>, closed: Vec<usize>, unsent: Option<T>) -> (result: Try<T>)
    requires
        removal::ascending_within(removal::places(closed@), old(chans)@.len()),
    ensures
        final(chans)@ == removal::swept(old(chans)@, removal::places(closed@)),
        result == verdict(unsent, final(chans)@),
{
    // Remove the closed channels from the collection so that they are not tried anymore.
    drop_closed(chans, closed);
    match unsent {
        // The data was sent to a channel.
        None => Ok(()),
        Some(data) => {
            if chans.is_empty() {
                // All the channels were closed.
                Err(TrySendError::Closed(data))
            } else {
                // All the channels that are left were full.
                Err(TrySendError::Full(data))
            }
        },
    }
}

/// Where closed channels were found is a list of places, and of those only.
pub proof fn lemma_closed_in<T>(tries: Seq<Try<T>>)
    ensures
        removal::ascending_within(closed_in(tries), tries.len()),
        forall|i: int|
            0 <= i < tries.len() ==> (closed_in(tries).contains(i) <==> found_closed(
                #[trigger] tries[i],
            )),
{
    let marks = tries.map_values(|outcome: Try<T>| found_closed(outcome));
    removal::lemma_listed(marks);
    assert forall|i: int| 0 <= i < tries.len() implies (closed_in(tries).contains(i)
        <==> found_closed(#[trigger] tries[i])) by {
        assert(marks[i] == found_closed(tries[i]));
    }
}

/// A further try adds its own place, if it found a closed channel.
pub proof fn lemma_closed_in_push<T>(tries: Seq<Try<T>>, outcome: Try<T>)
    ensures
        closed_in(tries.push(outcome)) == if found_closed(outcome) {
            closed_in(tries).push(tries.len() as int)
        } else {
            closed_in(tries)
        },
{
    let marks = tries.map_values(|outcome: Try<T>| found_closed(outcome));
    removal::lemma_listed_push(marks, found_closed(outcome));
    assert(tries.push(outcome).map_values(|outcome: Try<T>| found_closed(outcome)) =~= marks.push(
        found_closed(outcome),
    ));
}

} // verus!
