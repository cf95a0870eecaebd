//! How many sends the channels take when nothing else goes on.

use tokio::sync::mpsc::Sender;
use vstd::prelude::*;

use crate::mpsc::error::TrySendError;
use crate::mpsc::tries::Try;

verus! {

/// How much data `chan` takes, if `free` is how many slots each channel has free, and `open` tells
/// which channels are open.
pub open spec fn room<T>(
    chan: Sender<T>,
    open: spec_fn(Sender<T>) -> bool,
    free: spec_fn(Sender<T>) -> nat,
) -> nat {
    if open(chan) {
        free(chan)
    } else {
        0
    }
}

/// How much data the channels take together.
pub open spec fn total_room<T>(
    chans: Seq<Sender<T>>,
    open: spec_fn(Sender<T>) -> bool,
    free: spec_fn(Sender<T>) -> nat,
) -> nat
    decreases chans.len(),
{
    if chans.len() == 0 {
        0
    } else {
        total_room(chans.drop_last(), open, free) + room(chans.last(), open, free)
    }
}

/// A send that does not wait, while nothing else uses the channels: each channel that is tried
/// answers by its slots, and a slot of the channel that takes the data is used up. `free` are the
/// slots before the send, and `free_after` those after it.
pub open spec fn calm_try_send<T>(
    chans: Seq<Sender<T>>,
    data: T,
    tried: Seq<Try<T>>,
    left: Seq<Sender<T>>,
    result: Try<T>,
    open: spec_fn(Sender<T>) -> bool,
    free: spec_fn(Sender<T>) -> nat,
    free_after: spec_fn(Sender<T>) -> nat,
) -> bool {
    &&& crate::mpsc::tries::try_sent(chans, data, tried, left, result)
    &&& forall|i: int|
        0 <= i < tried.len() ==> {
            &&& #[trigger] tried[i] is Ok <==> room(chans[i], open, free) > 0
            &&& crate::mpsc::tries::found_closed(tried[i]) <==> !open(chans[i])
        }
    &&& forall|c: Sender<T>| #[trigger]
        free_after(c) == if result is Ok && c == chans[tried.len() - 1] {
            free(c) - 1
        } else {
            free(c) as int
        }
}

/// Sends that do not wait, one after the other, while nothing else uses the channels.
pub open spec fn calm_try_sends<T>(
    states: Seq<Seq<Sender<T>>>,
    data: Seq<T>,
    tried: Seq<Seq<Try<T>>>,
    results: Seq<Try<T>>,
    open: spec_fn(Sender<T>) -> bool,
    free: Seq<spec_fn(Sender<T>) -> nat>,
) -> bool {
    &&& states.len() == data.len() + 1
    &&& free.len() == data.len() + 1
    &&& tried.len() == data.len()
    &&& results.len() == data.len()
    &&& forall|k: int|
        0 <= k < data.len() ==> calm_try_send(
            #[trigger] states[k],
            data[k],
            tried[k],
            states[k + 1],
            results[k],
            open,
            free[k],
            free[k + 1],
        )
}

/// Over different channels, at least one of them open, with `n` free slots in the open ones
/// together: while nothing else uses the channels, the first `n` sends that do not wait succeed,
/// and the next one finds the channels full. Each of the first `n` puts its data into one slot of
/// an open channel, and in the end no slot is free. The collection then holds the open channels,
/// and no others.
pub proof fn every_free_slot_is_used<T>(
    states: Seq<Seq<Sender<T>>>,
    data: Seq<T>,
    tried: Seq<Seq<Try<T>>>,
    results: Seq<Try<T>>,
    open: spec_fn(Sender<T>) -> bool,
    free: Seq<spec_fn(Sender<T>) -> nat>,
)
    requires
        calm_try_sends(states, data, tried, results, open, free),
        states[0].no_duplicates(),
        exists|i: int| 0 <= i < states[0].len() && open(#[trigger] states[0][i]),
        data.len() == total_room(states[0], open, free[0]) + 1,
    ensures
        forall|k: int|
            0 <= k < data.len() - 1 ==> {
                let taker = tried[k].len() - 1;
                &&& #[trigger] results[k] is Ok
                &&& 0 <= taker < states[k].len()
                &&& open(states[k][taker])
                &&& tried[k][taker] is Ok
                &&& crate::mpsc::offered(states[k][taker], data[k], tried[k][taker])
                &&& forall|i: int| 0 <= i < taker ==> #[trigger] tried[k][i] is Err
            },
        results.last() == Err::<(), _>(TrySendError::Full(data.last())),
        states.last().no_duplicates(),
        forall|c: Sender<T>| #[trigger]
            states.last().contains(c) <==> states[0].contains(c) && open(c),
        forall|c: Sender<T>| #[trigger]
            states[0].contains(c) && open(c) ==> free.last()(c) == 0,
{
    let n = data.len() - 1;
    assert forall|k: int| 0 <= k < n implies {
        let taker = tried[k].len() - 1;
        &&& #[trigger] results[k] is Ok
        &&& 0 <= taker < states[k].len()
        &&& open(states[k][taker])
        &&& tried[k][taker] is Ok
        &&& crate::mpsc::offered(states[k][taker], data[k], tried[k][taker])
        &&& forall|i: int| 0 <= i < taker ==> #[trigger] tried[k][i] is Err
    } by {
        lemma_after(states, data, tried, results, open, free, k);
        lemma_one_send(
            states[k],
            data[k],
            tried[k],
            states[k + 1],
            results[k],
            open,
            free[k],
            free[k + 1],
        );
    }
    lemma_after(states, data, tried, results, open, free, n);
    lemma_one_send(
        states[n],
        data[n],
        tried[n],
        states[n + 1],
        results[n],
        open,
        free[n],
        free[n + 1],
    );
    assert forall|c: Sender<T>| #[trigger] states[0].contains(c) && open(c) implies free.last()(c)
        == 0 by {
        assert(states[n].contains(c));
        let i = choose|i: int| 0 <= i < states[n].len() && states[n][i] == c;
        lemma_room_of_one(states[n], open, free[n], i);
        assert(free[n + 1](c) == free[n](c));
    }
}

/// After the first `k` sends, `k` slots are used, and every open channel is still there.
proof fn lemma_after<T>(
    states: Seq<Seq<Sender<T>>>,
    data: Seq<T>,
    tried: Seq<Seq<Try<T>>>,
    results: Seq<Try<T>>,
    open: spec_fn(Sender<T>) -> bool,
    free: Seq<spec_fn(Sender<T>) -> nat>,
    k: int,
)
    requires
        calm_try_sends(states, data, tried, results, open, free),
        states[0].no_duplicates(),
        exists|i: int| 0 <= i < states[0].len() && open(#[trigger] states[0][i]),
        data.len() == total_room(states[0], open, free[0]) + 1,
        0 <= k < data.len(),
    ensures
        total_room(states[k], open, free[k]) == data.len() - 1 - k,
        calm_try_send(
            states[k],
            data[k],
            tried[k],
            states[k + 1],
            results[k],
            open,
            free[k],
            free[k + 1],
        ),
        states[k].no_duplicates(),
        exists|i: int| 0 <= i < states[k].len() && open(#[trigger] states[k][i]),
        forall|c: Sender<T>| #[trigger] states[k].contains(c) ==> states[0].contains(c),
        forall|c: Sender<T>| #[trigger]
            states[0].contains(c) && open(c) ==> states[k].contains(c),
    decreases k,
{
    assert(calm_try_send(
        states[k],
        data[k],
        tried[k],
        states[k + 1],
        results[k],
        open,
        free[k],
        free[k + 1],
    ));
    if k > 0 {
        let p = k - 1;
        lemma_after(states, data, tried, results, open, free, p);
        lemma_one_send(
            states[p],
            data[p],
            tried[p],
            states[k],
            results[p],
            open,
            free[p],
            free[k],
        );
        let i = choose|i: int| 0 <= i < states[p].len() && open(#[trigger] states[p][i]);
        assert(states[p].contains(states[p][i]));
        assert(states[k].contains(states[p][i]));
    }
}

/// One send, while nothing else uses the channels.
proof fn lemma_one_send<T>(
    chans: Seq<Sender<T>>,
    data: T,
    tried: Seq<Try<T>>,
    left: Seq<Sender<T>>,
    result: Try<T>,
    open: spec_fn(Sender<T>) -> bool,
    free: spec_fn(Sender<T>) -> nat,
    free_after: spec_fn(Sender<T>) -> nat,
)
    requires
        calm_try_send(chans, data, tried, left, result, open, free, free_after),
        chans.no_duplicates(),
        exists|i: int| 0 <= i < chans.len() && open(#[trigger] chans[i]),
    ensures
        result is Ok <==> total_room(chans, open, free) > 0,
        result is Ok ==> {
            let taker = tried.len() - 1;
            &&& 0 <= taker < chans.len()
            &&& open(chans[taker])
            &&& tried[taker] is Ok
            &&& crate::mpsc::offered(chans[taker], data, tried[taker])
            &&& forall|i: int| 0 <= i < taker ==> #[trigger] tried[i] is Err
            &&& total_room(left, open, free_after) == total_room(chans, open, free) - 1
        },
        result is Err ==> {
            &&& result == Err::<(), _>(TrySendError::Full(data))
            &&& forall|c: Sender<T>| #[trigger] left.contains(c) ==> open(c)
        },
        left.no_duplicates(),
        forall|c: Sender<T>| #[trigger] left.contains(c) ==> chans.contains(c),
        forall|c: Sender<T>| #[trigger] chans.contains(c) && open(c) ==> left.contains(c),
{
    let gone = crate::mpsc::tries::closed_in(tried);
    let taker = tried.len() - 1;
    crate::mpsc::tries::lemma_closed_in(tried);
    crate::mpsc::removal::lemma_swept(chans, gone);
    crate::mpsc::laws::first_available_channel_takes_it(chans, data, tried, left, result);
    crate::mpsc::laws::failure_tells_full_from_closed(chans, data, tried, left, result);
    assert forall|k: int| 0 <= k < gone.len() implies !open(chans[#[trigger] gone[k]]) by {
        assert(gone.contains(gone[k]));
        assert(crate::mpsc::tries::found_closed(tried[gone[k]]));
    }
    lemma_swept_room(chans, gone, open, free);
    lemma_swept_no_duplicates(chans, gone);
    assert forall|c: Sender<T>| #[trigger] chans.contains(c) && open(c) implies left.contains(
        c,
    ) by {
        let i = choose|i: int| 0 <= i < chans.len() && chans[i] == c;
        if gone.contains(i) {
            let k = choose|k: int| 0 <= k < gone.len() && gone[k] == i;
            assert(0 <= gone[k] < tried.len());
            assert(crate::mpsc::tries::found_closed(tried[i]));
        }
        assert(left.contains(chans[i]));
    }
    assert forall|c: Sender<T>| #[trigger] left.contains(c) implies chans.contains(c) by {
        let k = choose|k: int| 0 <= k < left.len() && left[k] == c;
        let i = crate::mpsc::removal::lemma_left_stood_somewhere(chans, gone, k);
        assert(chans[i] == c);
    }
    if result is Ok {
        assert(tried[taker] is Ok);
        lemma_room_of_one(chans, open, free, taker);
        assert(chans.contains(chans[taker]));
        lemma_one_slot_less(left, open, free, free_after, chans[taker]);
    } else {
        let j = choose|j: int| 0 <= j < chans.len() && open(#[trigger] chans[j]);
        assert(!crate::mpsc::tries::found_closed(tried[j]));
        if total_room(chans, open, free) > 0 {
            let i = lemma_some_room(chans, open, free);
            assert(tried[i] is Ok);
        }
        assert forall|c: Sender<T>| #[trigger] left.contains(c) implies open(c) by {
            let k = choose|k: int| 0 <= k < left.len() && left[k] == c;
            let i = crate::mpsc::removal::lemma_left_stood_somewhere(chans, gone, k);
            assert(!crate::mpsc::tries::found_closed(tried[i]));
        }
    }
}

/// One channel has no more room than all together.
proof fn lemma_room_of_one<T>(
    chans: Seq<Sender<T>>,
    open: spec_fn(Sender<T>) -> bool,
    free: spec_fn(Sender<T>) -> nat,
    i: int,
)
    requires
        0 <= i < chans.len(),
    ensures
        room(chans[i], open, free) <= total_room(chans, open, free),
    decreases chans.len(),
{
    if i < chans.len() - 1 {
        assert(chans.drop_last()[i] == chans[i]);
        lemma_room_of_one(chans.drop_last(), open, free, i);
    }
}

/// Where there is room, some channel has it.
proof fn lemma_some_room<T>(
    chans: Seq<Sender<T>>,
    open: spec_fn(Sender<T>) -> bool,
    free: spec_fn(Sender<T>) -> nat,
) -> (i: int)
    requires
        total_room(chans, open, free) > 0,
    ensures
        0 <= i < chans.len(),
        room(chans[i], open, free) > 0,
    decreases chans.len(),
{
    if room(chans.last(), open, free) > 0 {
        chans.len() - 1
    } else {
        let i = lemma_some_room(chans.drop_last(), open, free);
        assert(chans.drop_last()[i] == chans[i]);
        i
    }
}

/// Where one channel that stands in the collection once loses a slot, the room is less by one.
/// Where it does not stand there, the room is the same.
proof fn lemma_one_slot_less<T>(
    chans: Seq<Sender<T>>,
    open: spec_fn(Sender<T>) -> bool,
    free: spec_fn(Sender<T>) -> nat,
    free_after: spec_fn(Sender<T>) -> nat,
    taker: Sender<T>,
)
    requires
        chans.no_duplicates(),
        open(taker),
        free(taker) > 0,
        free_after(taker) == free(taker) - 1,
        forall|c: Sender<T>| c != taker ==> #[trigger] free_after(c) == free(c),
    ensures
        total_room(chans, open, free_after) == total_room(chans, open, free) - (
        if chans.contains(taker) {
            1int
        } else {
            0
        }),
    decreases chans.len(),
{
    if chans.len() > 0 {
        let rest = chans.drop_last();
        let last = chans.last();
        assert(chans[chans.len() - 1] == last);
        lemma_one_slot_less(rest, open, free, free_after, taker);
        if rest.contains(taker) {
            let i = choose|i: int| 0 <= i < rest.len() && rest[i] == taker;
            assert(chans[i] == taker);
        }
        if chans.contains(taker) && last != taker {
            let i = choose|i: int| 0 <= i < chans.len() && chans[i] == taker;
            assert(rest[i] == taker);
        }
        assert(room(last, open, free_after) == if last == taker {
            room(last, open, free) - 1
        } else {
            room(last, open, free) as int
        });
    }
}

/// Putting another channel in a place changes the room by the difference of the two.
proof fn lemma_updated_room<T>(
    chans: Seq<Sender<T>>,
    i: int,
    chan: Sender<T>,
    open: spec_fn(Sender<T>) -> bool,
    free: spec_fn(Sender<T>) -> nat,
)
    requires
        0 <= i < chans.len(),
    ensures
        total_room(chans.update(i, chan), open, free) + room(chans[i], open, free) == total_room(
            chans,
            open,
            free,
        ) + room(chan, open, free),
    decreases chans.len(),
{
    let updated = chans.update(i, chan);
    if i == chans.len() - 1 {
        assert(updated.drop_last() =~= chans.drop_last());
    } else {
        assert(updated.drop_last() =~= chans.drop_last().update(i, chan));
        lemma_updated_room(chans.drop_last(), i, chan, open, free);
    }
}

/// Sweeping channels that have no room leaves all the room.
proof fn lemma_swept_room<T>(
    chans: Seq<Sender<T>>,
    gone: Seq<int>,
    open: spec_fn(Sender<T>) -> bool,
    free: spec_fn(Sender<T>) -> nat,
)
    requires
        crate::mpsc::removal::ascending_within(gone, chans.len()),
        forall|k: int| 0 <= k < gone.len() ==> !open(chans[#[trigger] gone[k]]),
    ensures
        total_room(crate::mpsc::removal::swept(chans, gone), open, free) == total_room(
            chans,
            open,
            free,
        ),
    decreases gone.len(),
{
    if gone.len() > 0 {
        let last = gone.last();
        let rest = gone.drop_last();
        let next = crate::mpsc::removal::swap_removed(chans, last);
        assert(gone[gone.len() - 1] == last);
        crate::mpsc::removal::lemma_rest_ascending(gone, chans.len());
        crate::mpsc::removal::lemma_swap_removed(chans, last);
        lemma_updated_room(chans, last, chans.last(), open, free);
        assert(next == chans.update(last, chans.last()).drop_last());
        assert forall|k: int| 0 <= k < rest.len() implies !open(next[#[trigger] rest[k]]) by {
            assert(rest[k] < last);
            assert(!open(chans[gone[k]]));
        }
        lemma_swept_room(next, rest, open, free);
    }
}

/// Sweeping makes no duplicates.
proof fn lemma_swept_no_duplicates<C>(s: Seq<C>, gone: Seq<int>)
    requires
        crate::mpsc::removal::ascending_within(gone, s.len()),
        s.no_duplicates(),
    ensures
        crate::mpsc::removal::swept(s, gone).no_duplicates(),
    decreases gone.len(),
{
    if gone.len() > 0 {
        assert(gone[gone.len() - 1] == gone.last());
        crate::mpsc::removal::lemma_rest_ascending(gone, s.len());
        crate::mpsc::removal::lemma_swap_removed(s, gone.last());
        lemma_swept_no_duplicates(
            crate::mpsc::removal::swap_removed(s, gone.last()),
            gone.drop_last(),
        );
    }
}

} // verus!
