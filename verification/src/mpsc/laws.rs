//! What holds of the fan-out as a whole.

use tokio::sync::mpsc::Sender;
use vstd::prelude::*;

use crate::mpsc::error::SendError;
use crate::mpsc::error::TrySendError;
use crate::mpsc::fan_out::SendEvent;
use crate::mpsc::fan_out::SendStep;
use crate::mpsc::tries::Try;

verus! {

/// Data that is sent without waiting goes to one channel at most. It goes to one exactly when the
/// send succeeds, and that is the first channel, in order, that does not refuse it.
pub proof fn first_available_channel_takes_it<T>(
    chans: Seq<Sender<T>>,
    data: T,
    tried: Seq<Try<T>>,
    left: Seq<Sender<T>>,
    result: Try<T>,
)
    requires
        crate::mpsc::tries::try_sent(chans, data, tried, left, result),
    ensures
        forall|i: int, j: int|
            0 <= i < tried.len() && 0 <= j < tried.len() && #[trigger] tried[i] is Ok
                && #[trigger] tried[j] is Ok ==> i == j,
        result is Ok <==> exists|i: int| 0 <= i < tried.len() && #[trigger] tried[i] is Ok,
        result is Ok ==> {
            let taker = tried.len() - 1;
            &&& 0 <= taker < chans.len()
            &&& tried[taker] is Ok
            &&& crate::mpsc::offered(chans[taker], data, tried[taker])
            &&& forall|i: int| 0 <= i < taker ==> #[trigger] tried[i] is Err
        },
{
    if result is Ok {
        assert(tried[tried.len() - 1] is Ok);
    }
}

/// A channel that does not take the data that it is offered hands back that data.
pub proof fn refused_offer_hands_the_data_back<T>(chan: Sender<T>, data: T, outcome: Try<T>)
    requires
        crate::mpsc::offered(chan, data, outcome),
    ensures
        outcome is Err ==> crate::mpsc::tries::unsent_after(outcome) == Some(data),
{
}

/// A send that does not wait and fails has tried every channel, and hands back the data.
pub proof fn failure_hands_the_data_back<T>(
    chans: Seq<Sender<T>>,
    data: T,
    tried: Seq<Try<T>>,
    left: Seq<Sender<T>>,
    result: Try<T>,
)
    requires
        crate::mpsc::tries::try_sent(chans, data, tried, left, result),
        result is Err,
    ensures
        tried.len() == chans.len(),
        result == Err::<(), _>(TrySendError::Full(data)) || result == Err::<(), _>(
            TrySendError::Closed(data),
        ),
{
}

/// A send that does not wait fails with `Closed` exactly when there is no channel that is not
/// closed. It fails with `Full` exactly when some channel was full, and none took the data.
pub proof fn failure_tells_full_from_closed<T>(
    chans: Seq<Sender<T>>,
    data: T,
    tried: Seq<Try<T>>,
    left: Seq<Sender<T>>,
    result: Try<T>,
)
    requires
        crate::mpsc::tries::try_sent(chans, data, tried, left, result),
    ensures
        result matches Err(TrySendError::Closed(_)) <==> tried.len() == chans.len() && forall|i: int|
            0 <= i < tried.len() ==> crate::mpsc::tries::found_closed(#[trigger] tried[i]),
        result matches Err(TrySendError::Full(_)) <==> {
            &&& forall|i: int| 0 <= i < tried.len() ==> #[trigger] tried[i] is Err
            &&& exists|i: int|
                0 <= i < tried.len() && #[trigger] tried[i] matches Err(TrySendError::Full(_))
        },
        result matches Err(TrySendError::Closed(_)) ==> left.len() == 0,
{
    let gone = crate::mpsc::tries::closed_in(tried);
    crate::mpsc::tries::lemma_closed_in(tried);
    crate::mpsc::removal::lemma_swept(chans, gone);
    if tried.len() > 0 && tried.last() is Ok {
        assert(tried[tried.len() - 1] is Ok);
    } else {
        assert(tried.len() == chans.len());
        if forall|i: int|
            0 <= i < tried.len() ==> crate::mpsc::tries::found_closed(#[trigger] tried[i]) {
            lemma_marks(tried);
        } else {
            let i = choose|i: int|
                0 <= i < tried.len() && !crate::mpsc::tries::found_closed(#[trigger] tried[i]);
            assert(!gone.contains(i));
            assert(left.contains(chans[i]));
            assert(tried[i] is Err);
        }
    }
}

/// Where every try finds a closed channel, every place is listed. Where none does, no place is.
proof fn lemma_marks<T>(tried: Seq<Try<T>>)
    ensures
        (forall|i: int|
            0 <= i < tried.len() ==> crate::mpsc::tries::found_closed(#[trigger] tried[i]))
            ==> crate::mpsc::tries::closed_in(tried).len() == tried.len(),
        (forall|i: int|
            0 <= i < tried.len() ==> !crate::mpsc::tries::found_closed(#[trigger] tried[i]))
            ==> crate::mpsc::tries::closed_in(tried).len() == 0,
{
    let marks = tried.map_values(|outcome: Try<T>| crate::mpsc::tries::found_closed(outcome));
    assert(forall|i: int|
        0 <= i < marks.len() ==> #[trigger] marks[i] == crate::mpsc::tries::found_closed(tried[i]));
    crate::mpsc::removal::lemma_listed_all_or_none(marks);
}

/// A send that does not wait removes the channels that it found closed, and no others. Where it
/// found none, the collection stays as it was. The channel that took the data stays.
pub proof fn only_closed_channels_are_removed<T>(
    chans: Seq<Sender<T>>,
    data: T,
    tried: Seq<Try<T>>,
    left: Seq<Sender<T>>,
    result: Try<T>,
)
    requires
        crate::mpsc::tries::try_sent(chans, data, tried, left, result),
    ensures
        ({
            let gone = crate::mpsc::tries::closed_in(tried);
            &&& forall|i: int|
                0 <= i < tried.len() ==> (gone.contains(i) <==> crate::mpsc::tries::found_closed(
                    #[trigger] tried[i],
                ))
            &&& gone.no_duplicates()
            &&& chans.to_multiset() == left.to_multiset().add(
                crate::mpsc::removal::taken(chans, gone).to_multiset(),
            )
        }),
        forall|i: int|
            0 <= i < chans.len() && (i < tried.len() ==> !crate::mpsc::tries::found_closed(
                tried[i],
            )) ==> left.contains(#[trigger] chans[i]),
        (forall|i: int|
            0 <= i < tried.len() ==> !crate::mpsc::tries::found_closed(#[trigger] tried[i]))
            ==> left == chans,
        result is Ok ==> left.contains(chans[tried.len() - 1]),
{
    let gone = crate::mpsc::tries::closed_in(tried);
    crate::mpsc::tries::lemma_closed_in(tried);
    crate::mpsc::removal::lemma_swept(chans, gone);
    assert forall|i: int|
        0 <= i < chans.len() && (i < tried.len() ==> !crate::mpsc::tries::found_closed(
            tried[i],
        )) implies left.contains(#[trigger] chans[i]) by {
        if gone.contains(i) {
            let k = choose|k: int| 0 <= k < gone.len() && gone[k] == i;
            assert(0 <= gone[k] < tried.len());
        }
    }
    lemma_marks(tried);
    if result is Ok {
        let taker = tried.len() - 1;
        assert(!crate::mpsc::tries::found_closed(tried[taker]));
        assert(left.contains(chans[taker]));
    }
}

/// Where no channel is left, every send fails at once, hands the data back, and leaves no channel.
pub proof fn without_channels_every_send_fails<T>(
    chans: Seq<Sender<T>>,
    data: T,
    tried: Seq<Try<T>>,
    left: Seq<Sender<T>>,
    result: Try<T>,
)
    requires
        crate::mpsc::tries::try_sent(chans, data, tried, left, result),
        chans.len() == 0,
    ensures
        result == Err::<(), _>(TrySendError::Closed(data)),
        left.len() == 0,
        forall|asked: Seq<bool>, after: Seq<Sender<T>>| #[trigger]
            crate::mpsc::fan_out::cleaned(chans, asked, after) ==> after.len() == 0
                && crate::mpsc::fan_out::step_after(after, SendEvent::Start(data))
                == SendStep::Done(Err(SendError(data))),
{
    lemma_marks(tried);
    assert forall|asked: Seq<bool>, after: Seq<Sender<T>>| #[trigger]
        crate::mpsc::fan_out::cleaned(chans, asked, after) implies after.len() == 0 by {
        crate::mpsc::removal::lemma_listed_all_or_none(asked);
    }
}

/// A send that waits begins by removing the channels that say they are closed. Those and no others
/// leave, and every channel that is left said that it was not closed.
pub proof fn send_starts_without_closed_channels<T>(
    chans: Seq<Sender<T>>,
    asked: Seq<bool>,
    left: Seq<Sender<T>>,
)
    requires
        crate::mpsc::fan_out::cleaned(chans, asked, left),
    ensures
        chans.to_multiset() == left.to_multiset().add(
            crate::mpsc::removal::taken(
                chans,
                crate::mpsc::removal::listed(asked),
            ).to_multiset(),
        ),
        left.len() == chans.len() - crate::mpsc::removal::listed(asked).len(),
        forall|i: int|
            0 <= i < chans.len() ==> (crate::mpsc::removal::listed(asked).contains(i)
                <==> #[trigger] asked[i]),
        forall|c: Sender<T>| #[trigger] left.contains(c) ==> crate::mpsc::said_closed(c, false),
        (forall|i: int| 0 <= i < asked.len() ==> !#[trigger] asked[i]) ==> left == chans,
{
    let gone = crate::mpsc::removal::listed(asked);
    crate::mpsc::removal::lemma_listed(asked);
    crate::mpsc::removal::lemma_listed_all_or_none(asked);
    crate::mpsc::removal::lemma_swept(chans, gone);
    assert forall|c: Sender<T>| #[trigger] left.contains(c) implies crate::mpsc::said_closed(
        c,
        false,
    ) by {
        let k = choose|k: int| 0 <= k < left.len() && left[k] == c;
        let i = crate::mpsc::removal::lemma_left_stood_somewhere(chans, gone, k);
        assert(!asked[i]);
    }
}

/// `event` takes the collection from `before` to `after`, as [`FanOut::send`] has it. `asked` are
/// the answers that the channels give at the start.
///
/// [`FanOut::send`]: crate::mpsc::FanOut::send
pub open spec fn event_changes<T>(
    before: Seq<Sender<T>>,
    event: SendEvent<T>,
    asked: Seq<bool>,
    after: Seq<Sender<T>>,
) -> bool {
    match event {
        SendEvent::Start(_) => crate::mpsc::fan_out::cleaned(before, asked, after),
        SendEvent::Sent => after == crate::mpsc::fan_out::chans_after(before, event),
        SendEvent::Closed(_, index) => {
            &&& index < before.len()
            &&& after == crate::mpsc::fan_out::chans_after(before, event)
        },
    }
}

/// The channels that `event` takes out of `before`: those that said they were closed, at the start,
/// and the one that was found closed, later.
pub open spec fn event_takes_out<T>(
    before: Seq<Sender<T>>,
    event: SendEvent<T>,
    asked: Seq<bool>,
) -> Seq<Sender<T>> {
    match event {
        SendEvent::Start(_) => crate::mpsc::removal::taken(
            before,
            crate::mpsc::removal::listed(asked),
        ),
        SendEvent::Sent => Seq::empty(),
        SendEvent::Closed(_, index) => seq![before[index as int]],
    }
}

/// A step of a send that waits removes the channels that it finds closed, and no others.
pub proof fn send_removes_what_was_found_closed<T>(
    before: Seq<Sender<T>>,
    event: SendEvent<T>,
    asked: Seq<bool>,
    after: Seq<Sender<T>>,
)
    requires
        event_changes(before, event, asked, after),
    ensures
        before.to_multiset() == after.to_multiset().add(
            event_takes_out(before, event, asked).to_multiset(),
        ),
{
    broadcast use vstd::seq_lib::group_to_multiset_ensures;

    let out = event_takes_out(before, event, asked);
    match event {
        SendEvent::Start(_) => {
            send_starts_without_closed_channels(before, asked, after);
        },
        SendEvent::Sent => {
            assert(before.to_multiset() =~= after.to_multiset().add(out.to_multiset()));
        },
        SendEvent::Closed(_, index) => {
            crate::mpsc::removal::lemma_swap_removed(before, index as int);
            assert(out =~= Seq::empty().push(before[index as int]));
            assert(before.to_multiset() =~= after.to_multiset().add(out.to_multiset()));
        },
    }
}

/// The events and steps of a send of `data` that waits: `chans[k]` are the channels before
/// `events[k]`, and `steps[k]` is the step that follows it. `asked` are the answers at the start.
pub open spec fn send_run<T>(
    data: T,
    chans: Seq<Seq<Sender<T>>>,
    asked: Seq<bool>,
    events: Seq<SendEvent<T>>,
    steps: Seq<SendStep<T>>,
) -> bool {
    &&& events.len() > 0
    &&& steps.len() == events.len()
    &&& chans.len() == events.len() + 1
    &&& events[0] == SendEvent::Start(data)
    &&& forall|k: int|
        0 <= k < events.len() ==> #[trigger] send_run_at(chans, asked, events, steps, k)
}

/// `events[k]` is one that `steps[k - 1]` calls for, and what follows it is as [`FanOut::send`]
/// has it.
///
/// [`FanOut::send`]: crate::mpsc::FanOut::send
pub open spec fn send_run_at<T>(
    chans: Seq<Seq<Sender<T>>>,
    asked: Seq<bool>,
    events: Seq<SendEvent<T>>,
    steps: Seq<SendStep<T>>,
    k: int,
) -> bool {
    &&& event_changes(chans[k], events[k], asked, chans[k + 1])
    &&& steps[k] == crate::mpsc::fan_out::step_after(chans[k + 1], events[k])
    &&& k > 0 ==> {
        &&& steps[k - 1] matches SendStep::Wait(pending) && match events[k] {
            SendEvent::Start(_) => false,
            SendEvent::Sent => true,
            SendEvent::Closed(back, _) => back == pending,
        }
    }
}

/// A send that waits keeps the data until a channel takes it: it waits with the data that it was
/// given, and it fails with that data. It fails when no channel is left, and only then. It
/// succeeds when a channel took the data, and only then. Each channel that is found closed brings
/// it nearer to its end: with `n` channels it takes `n + 1` steps at most.
pub proof fn send_keeps_the_data_and_ends<T>(
    data: T,
    chans: Seq<Seq<Sender<T>>>,
    asked: Seq<bool>,
    events: Seq<SendEvent<T>>,
    steps: Seq<SendStep<T>>,
)
    requires
        send_run(data, chans, asked, events, steps),
    ensures
        events.len() <= chans[1].len() + 1 <= chans[0].len() + 1,
        match steps.last() {
            SendStep::Wait(pending) => pending == data && chans.last().len() > 0,
            SendStep::Done(Ok(())) => events.last() is Sent,
            SendStep::Done(Err(SendError(back))) => back == data && chans.last().len() == 0,
        },
        events.last() is Sent ==> steps.last() == SendStep::<T>::Done(Ok(())),
        events.last() is Sent || chans.last().len() + events.len() == chans[1].len() + 1,
    decreases events.len(),
{
    let last = events.len() - 1;
    assert(send_run_at(chans, asked, events, steps, last));
    if last > 0 {
        lemma_shorter_run(data, chans, asked, events, steps);
        let (c, e, s) = (chans.drop_last(), events.drop_last(), steps.drop_last());
        send_keeps_the_data_and_ends(data, c, asked, e, s);
        assert(steps[last - 1] == s.last());
        assert(chans[last] == c.last());
        assert(c[1] == chans[1]);
    } else {
        send_starts_without_closed_channels(chans[0], asked, chans[1]);
    }
}

/// Without its last event, a run is still a run.
proof fn lemma_shorter_run<T>(
    data: T,
    chans: Seq<Seq<Sender<T>>>,
    asked: Seq<bool>,
    events: Seq<SendEvent<T>>,
    steps: Seq<SendStep<T>>,
)
    requires
        send_run(data, chans, asked, events, steps),
        events.len() > 1,
    ensures
        send_run(data, chans.drop_last(), asked, events.drop_last(), steps.drop_last()),
{
    let (c, e, s) = (chans.drop_last(), events.drop_last(), steps.drop_last());
    assert forall|k: int| 0 <= k < e.len() implies #[trigger] send_run_at(c, asked, e, s, k) by {
        assert(send_run_at(chans, asked, events, steps, k));
    }
}

/// A send that is waiting after `m` events has handed the data to no channel, and every channel
/// that it waits for said that it was not closed. If a channel then takes the data, the send is
/// over, with success, and the collection stays as it is. If all the channels turn out to be
/// closed instead, the send fails with the data, and no channel is left.
pub proof fn waiting_send_has_two_ways_to_end<T>(
    data: T,
    chans: Seq<Seq<Sender<T>>>,
    asked: Seq<bool>,
    events: Seq<SendEvent<T>>,
    steps: Seq<SendStep<T>>,
    m: int,
)
    requires
        send_run(data, chans, asked, events, steps),
        0 < m <= events.len(),
        steps[m - 1] is Wait,
    ensures
        steps[m - 1] == SendStep::Wait(data),
        forall|k: int| 0 <= k < m ==> #[trigger] events[k] !is Sent,
        forall|c: Sender<T>| #[trigger]
            chans[m].contains(c) ==> crate::mpsc::said_closed(c, false),
        m < events.len() && events[m] is Sent ==> {
            &&& events.len() == m + 1
            &&& steps.last() == SendStep::<T>::Done(Ok(()))
            &&& chans.last() == chans[m]
        },
        events.len() - m == chans[m].len() && (forall|k: int|
            m <= k < events.len() ==> #[trigger] events[k] is Closed) ==> {
            &&& steps.last() == SendStep::Done(Err(SendError(data)))
            &&& chans.last().len() == 0
        },
    decreases events.len(),
{
    let last = events.len() - 1;
    send_keeps_the_data_and_ends(data, chans, asked, events, steps);
    assert(send_run_at(chans, asked, events, steps, last));
    if m < events.len() {
        lemma_shorter_run(data, chans, asked, events, steps);
        let (c, e, s) = (chans.drop_last(), events.drop_last(), steps.drop_last());
        waiting_send_has_two_ways_to_end(data, c, asked, e, s, m);
        assert(s[m - 1] == steps[m - 1]);
        assert(c[m] == chans[m]);
        assert forall|k: int| 0 <= k < m implies #[trigger] events[k] !is Sent by {
            assert(e[k] == events[k]);
        }
        if events[m] is Sent && m < last {
            // The send would have been over.
            assert(send_run_at(chans, asked, events, steps, m));
            assert(send_run_at(chans, asked, events, steps, m + 1));
        }
        if events.len() - m == chans[m].len() && (forall|k: int|
            m <= k < events.len() ==> #[trigger] events[k] is Closed) {
            lemma_closed_events_count(data, chans, asked, events, steps, m);
            assert(events[last] is Closed);
        }
    } else {
        assert(chans.last() == chans[m]);
        lemma_all_waited_for_were_open(data, chans, asked, events, steps);
        if exists|k: int| 0 <= k < m && events[k] is Sent {
            let k = choose|k: int| 0 <= k < m && events[k] is Sent;
            assert(send_run_at(chans, asked, events, steps, k));
            if k + 1 < m {
                assert(send_run_at(chans, asked, events, steps, k + 1));
            }
        }
    }
}

/// Each event that reports a closed channel makes the collection smaller by one.
proof fn lemma_closed_events_count<T>(
    data: T,
    chans: Seq<Seq<Sender<T>>>,
    asked: Seq<bool>,
    events: Seq<SendEvent<T>>,
    steps: Seq<SendStep<T>>,
    m: int,
)
    requires
        send_run(data, chans, asked, events, steps),
        0 < m <= events.len(),
        forall|k: int| m <= k < events.len() ==> #[trigger] events[k] is Closed,
    ensures
        chans.last().len() == chans[m].len() - (events.len() - m),
    decreases events.len(),
{
    if m < events.len() {
        let last = events.len() - 1;
        assert(send_run_at(chans, asked, events, steps, last));
        assert(events[last] is Closed);
        lemma_shorter_run(data, chans, asked, events, steps);
        let (c, e, s) = (chans.drop_last(), events.drop_last(), steps.drop_last());
        assert(forall|k: int| m <= k < e.len() ==> #[trigger] e[k] == events[k]);
        lemma_closed_events_count(data, c, asked, e, s, m);
        assert(c.last() == chans[last]);
        assert(c[m] == chans[m]);
    }
}

/// Every channel that is in the collection after the start said that it was not closed.
proof fn lemma_all_waited_for_were_open<T>(
    data: T,
    chans: Seq<Seq<Sender<T>>>,
    asked: Seq<bool>,
    events: Seq<SendEvent<T>>,
    steps: Seq<SendStep<T>>,
)
    requires
        send_run(data, chans, asked, events, steps),
    ensures
        forall|c: Sender<T>| #[trigger]
            chans.last().contains(c) ==> crate::mpsc::said_closed(c, false),
    decreases events.len(),
{
    let last = events.len() - 1;
    assert(send_run_at(chans, asked, events, steps, last));
    if last == 0 {
        send_starts_without_closed_channels(chans[0], asked, chans[1]);
    } else {
        lemma_shorter_run(data, chans, asked, events, steps);
        lemma_all_waited_for_were_open(
            data,
            chans.drop_last(),
            asked,
            events.drop_last(),
            steps.drop_last(),
        );
        let before = chans[last];
        assert(before == chans.drop_last().last());
        let after = chans.last();
        assert forall|c: Sender<T>| #[trigger] after.contains(c) implies before.contains(c) by {
            let k = choose|k: int| 0 <= k < after.len() && after[k] == c;
            if let SendEvent::Closed(_, index) = events[last] {
                crate::mpsc::removal::lemma_swap_removed(before, index as int);
                if k == index {
                    assert(before[before.len() - 1] == c);
                } else {
                    assert(before[k] == c);
                }
            }
        }
    }
}

/// The channels that the events of a run name as closed, in order.
pub open spec fn named_closed<T>(
    chans: Seq<Seq<Sender<T>>>,
    events: Seq<SendEvent<T>>,
) -> Seq<Sender<T>>
    decreases events.len(),
{
    if events.len() == 0 {
        Seq::empty()
    } else {
        let before = named_closed(chans, events.drop_last());
        match events.last() {
            SendEvent::Closed(_, index) => before.push(chans[events.len() - 1][index as int]),
            _ => before,
        }
    }
}

/// A whole send that waits removes the channels that said they were closed at its start and those
/// that were found closed later, and no others.
pub proof fn whole_send_removes_what_was_found_closed<T>(
    data: T,
    chans: Seq<Seq<Sender<T>>>,
    asked: Seq<bool>,
    events: Seq<SendEvent<T>>,
    steps: Seq<SendStep<T>>,
)
    requires
        send_run(data, chans, asked, events, steps),
    ensures
        chans[0].to_multiset() == chans.last().to_multiset().add(
            crate::mpsc::removal::taken(
                chans[0],
                crate::mpsc::removal::listed(asked),
            ).to_multiset(),
        ).add(named_closed(chans, events).to_multiset()),
    decreases events.len(),
{
    broadcast use vstd::seq_lib::group_to_multiset_ensures;

    let last = events.len() - 1;
    let said = crate::mpsc::removal::taken(chans[0], crate::mpsc::removal::listed(asked));
    let named = named_closed(chans, events);
    assert(send_run_at(chans, asked, events, steps, last));
    send_removes_what_was_found_closed(chans[last], events[last], asked, chans[last + 1]);
    if last == 0 {
        reveal_with_fuel(named_closed, 2);
        assert(named =~= Seq::empty());
        assert(chans[0].to_multiset() =~= chans.last().to_multiset().add(said.to_multiset()).add(
            named.to_multiset(),
        ));
    } else {
        lemma_shorter_run(data, chans, asked, events, steps);
        let (c, e, s) = (chans.drop_last(), events.drop_last(), steps.drop_last());
        whole_send_removes_what_was_found_closed(data, c, asked, e, s);
        lemma_named_closed_goes_by_its_events(chans, c, e);
        assert(c.last() == chans[last]);
        assert(c[0] == chans[0]);
        let out = event_takes_out(chans[last], events[last], asked);
        if let SendEvent::Closed(_, index) = events[last] {
            assert(out =~= Seq::empty().push(chans[last][index as int]));
        }
        assert(chans[0].to_multiset() =~= chans.last().to_multiset().add(said.to_multiset()).add(
            named.to_multiset(),
        ));
    }
}

/// Which channels are named rests on the collections before the events, and on no later ones.
proof fn lemma_named_closed_goes_by_its_events<T>(
    a: Seq<Seq<Sender<T>>>,
    b: Seq<Seq<Sender<T>>>,
    events: Seq<SendEvent<T>>,
)
    requires
        forall|k: int| 0 <= k < events.len() ==> #[trigger] a[k] == b[k],
    ensures
        named_closed(a, events) == named_closed(b, events),
    decreases events.len(),
{
    if events.len() > 0 {
        assert(a[events.len() - 1] == b[events.len() - 1]);
        lemma_named_closed_goes_by_its_events(a, b, events.drop_last());
    }
}

} // verus!
