//! What holds over any number of sends.

use tokio::sync::mpsc::Sender;
use vstd::prelude::*;

use crate::mpsc::fan_out::SendEvent;
use crate::mpsc::tries::Try;
use crate::mpsc::FanOut;

verus! {

/// What changes the collection, with what is found out about its channels.
#[verifier::reject_recursive_types(T)]
pub enum Change<T> {
    /// A send of this data that does not wait, with its tries and its result.
    TrySend(T, Seq<Try<T>>, Try<T>),
    /// A step of a send that waits, with the answers of the channels, if it is the first.
    Step(SendEvent<T>, Seq<bool>),
}

/// `change` takes the collection from `before` to `after`.
pub open spec fn changed<T>(
    before: Seq<Sender<T>>,
    change: Change<T>,
    after: Seq<Sender<T>>,
) -> bool {
    match change {
        Change::TrySend(data, tried, result) => crate::mpsc::tries::try_sent(
            before,
            data,
            tried,
            after,
            result,
        ),
        Change::Step(event, asked) => crate::mpsc::laws::event_changes(before, event, asked, after),
    }
}

/// The channels that `change` takes out of `before`.
pub open spec fn takes_out<T>(before: Seq<Sender<T>>, change: Change<T>) -> Seq<Sender<T>> {
    match change {
        Change::TrySend(_, tried, _) => crate::mpsc::removal::taken(
            before,
            crate::mpsc::tries::closed_in(tried),
        ),
        Change::Step(event, asked) => crate::mpsc::laws::event_takes_out(before, event, asked),
    }
}

/// `change` finds the channel at `i` in `before` closed: it answers an offer so, it says so when
/// asked, or the wait for it says so.
pub open spec fn finds_closed<T>(before: Seq<Sender<T>>, change: Change<T>, i: int) -> bool {
    match change {
        Change::TrySend(data, tried, _) => {
            &&& 0 <= i < tried.len()
            &&& crate::mpsc::offered(before[i], data, tried[i])
            &&& crate::mpsc::tries::found_closed(tried[i])
        },
        Change::Step(SendEvent::Start(_), asked) => {
            &&& 0 <= i < asked.len()
            &&& asked[i]
            &&& crate::mpsc::said_closed(before[i], asked[i])
        },
        Change::Step(SendEvent::Closed(_, index), _) => i == index,
        Change::Step(SendEvent::Sent, _) => false,
    }
}

/// `changes` take the collection through `states`, one after the other.
pub open spec fn history<T>(states: Seq<Seq<Sender<T>>>, changes: Seq<Change<T>>) -> bool {
    &&& states.len() == changes.len() + 1
    &&& forall|k: int|
        0 <= k < changes.len() ==> changed(#[trigger] states[k], changes[k], states[k + 1])
}

/// The channels that `changes` take out of the collection, in order.
pub open spec fn all_taken_out<T>(
    states: Seq<Seq<Sender<T>>>,
    changes: Seq<Change<T>>,
) -> Seq<Sender<T>>
    decreases changes.len(),
{
    if changes.len() == 0 {
        Seq::empty()
    } else {
        all_taken_out(states, changes.drop_last()) + takes_out(
            states[changes.len() - 1],
            changes.last(),
        )
    }
}

/// Over any number of sends, the collection loses the channels that were found closed, and no
/// others. What is left was there at the start, each channel no more often than then, and none
/// was added.
pub proof fn sends_remove_closed_channels_only<T>(
    states: Seq<Seq<Sender<T>>>,
    changes: Seq<Change<T>>,
)
    requires
        history(states, changes),
    ensures
        states[0].to_multiset() == states.last().to_multiset().add(
            all_taken_out(states, changes).to_multiset(),
        ),
        states.last().to_multiset().subset_of(states[0].to_multiset()),
        states.last().len() <= states[0].len(),
        forall|c: Sender<T>| #[trigger]
            all_taken_out(states, changes).contains(c) ==> exists|k: int, i: int|
                0 <= k < changes.len() && 0 <= i < states[k].len() && #[trigger] states[k][i] == c
                    && finds_closed(states[k], changes[k], i),
    decreases changes.len(),
{
    broadcast use vstd::seq_lib::group_to_multiset_ensures;

    let out = all_taken_out(states, changes);
    if changes.len() == 0 {
        assert(states[0].to_multiset() =~= states.last().to_multiset().add(out.to_multiset()));
    } else {
        let last = changes.len() - 1;
        let (s, c) = (states.drop_last(), changes.drop_last());
        assert forall|k: int| 0 <= k < c.len() implies changed(#[trigger] s[k], c[k], s[k + 1]) by {
            assert(changed(states[k], changes[k], states[k + 1]));
        }
        sends_remove_closed_channels_only(s, c);
        lemma_taken_out_goes_by_its_changes(states, s, c);
        let earlier = all_taken_out(s, c);
        let now = takes_out(states[last], changes[last]);
        assert(changed(states[last], changes[last], states[last + 1]));
        lemma_one_change(states[last], changes[last], states[last + 1]);
        vstd::seq_lib::lemma_multiset_commutative(earlier, now);
        assert(states[0].to_multiset() =~= states.last().to_multiset().add(out.to_multiset()));
        assert forall|x: Sender<T>| #[trigger] out.contains(x) implies exists|k: int, i: int|
            0 <= k < changes.len() && 0 <= i < states[k].len() && #[trigger] states[k][i] == x
                && finds_closed(states[k], changes[k], i) by {
            let p = choose|p: int| 0 <= p < out.len() && out[p] == x;
            if p < earlier.len() {
                assert(earlier[p] == x);
                assert(earlier.contains(x));
                let (k, i) = choose|k: int, i: int|
                    0 <= k < c.len() && 0 <= i < s[k].len() && #[trigger] s[k][i] == x
                        && finds_closed(s[k], c[k], i);
                assert(states[k][i] == x);
            } else {
                let q = p - earlier.len();
                assert(now[q] == x);
                let i = lemma_taken_out_was_found_closed(
                    states[last],
                    changes[last],
                    states[last + 1],
                    q,
                );
                assert(states[last][i] == x);
            }
        }
    }
    assert(states.last().to_multiset().len() <= states[0].to_multiset().len());
}

/// The lock of `this` hands out a collection that holds `last`: what the last change left is what
/// it guards still.
pub open spec fn hands_out<T>(this: FanOut<T>, last: Seq<Sender<T>>) -> bool {
    forall|chans: Vec<Sender<T>>| #[trigger]
        crate::mpsc::came_out_of(chans, *this.chans) ==> chans@ == last
}

/// A `FanOut` that was made with `states[0]`, whose channels the sends in `changes` took through
/// `states`, and whose lock hands out what they left, gives its channels back so: they are among
/// those that it was made with, each no more often than there, and those that are missing were
/// found closed. It gives them back if no other handle shares them. Where one does, the `FanOut`
/// itself comes back.
pub proof fn into_inner_gives_what_the_sends_left<T>(
    this: FanOut<T>,
    states: Seq<Seq<Sender<T>>>,
    changes: Seq<Change<T>>,
    result: Result<Vec<Sender<T>>, FanOut<T>>,
)
    requires
        this.made_with(states[0]),
        history(states, changes),
        hands_out(this, states.last()),
        call_ensures(FanOut::<T>::into_inner, (this,), result),
    ensures
        match result {
            Ok(chans) => {
                &&& chans@ == states.last()
                &&& states[0].to_multiset() == chans@.to_multiset().add(
                    all_taken_out(states, changes).to_multiset(),
                )
                &&& chans@.to_multiset().subset_of(states[0].to_multiset())
            },
            Err(back) => back == this && crate::mpsc::was_last(this.chans, false),
        },
        !crate::mpsc::was_last(this.chans, false) ==> result is Ok,
        forall|c: Sender<T>| #[trigger]
            all_taken_out(states, changes).contains(c) ==> exists|k: int, i: int|
                0 <= k < changes.len() && 0 <= i < states[k].len() && #[trigger] states[k][i] == c
                    && finds_closed(states[k], changes[k], i),
{
    sends_remove_closed_channels_only(states, changes);
}

/// A `FanOut` that nothing was sent to, and whose lock hands out what it was made with, gives back
/// the channels that it was made with: all of them, in the same order. It gives them back if no
/// other handle shares them.
pub proof fn into_inner_gives_back_what_new_took<T>(
    this: FanOut<T>,
    given: Seq<Sender<T>>,
    result: Result<Vec<Sender<T>>, FanOut<T>>,
)
    requires
        this.made_with(given),
        hands_out(this, given),
        call_ensures(FanOut::<T>::into_inner, (this,), result),
    ensures
        match result {
            Ok(chans) => chans@ == given,
            Err(back) => back == this && crate::mpsc::was_last(this.chans, false),
        },
        !crate::mpsc::was_last(this.chans, false) ==> result is Ok,
{
    into_inner_gives_what_the_sends_left(this, seq![given], Seq::empty(), result);
}

/// A `FanOut` whose channels the sends in `changes` took through `states` gives back what they
/// left, if it was made with `states[0]`, and if its lock, made over `states[0]`, guards what they
/// left. What comes back was there at the start, each channel no more often than then.
pub proof fn into_inner_follows_making_and_sends<T>(
    this: FanOut<T>,
    states: Seq<Seq<Sender<T>>>,
    changes: Seq<Change<T>>,
    back: Vec<Sender<T>>,
)
    requires
        this.made_with(states[0]),
        history(states, changes),
        forall|a: Vec<Sender<T>>, b: Vec<Sender<T>>| #[trigger]
            crate::mpsc::made_over(*this.chans, a) && a@ == states[0]
                && #[trigger] crate::mpsc::came_out_of(b, *this.chans) ==> b@ == states.last(),
        call_ensures(FanOut::<T>::into_inner, (this,), Ok(back)),
    ensures
        back@ == states.last(),
        back@.to_multiset().subset_of(states[0].to_multiset()),
        changes.len() == 0 ==> back@ == states[0],
{
    crate::mpsc::fan_out::made_with_is_about_the_lock(this, states[0]);
    sends_remove_closed_channels_only(states, changes);
}

/// What one change takes out and what it leaves make up what was there.
proof fn lemma_one_change<T>(before: Seq<Sender<T>>, change: Change<T>, after: Seq<Sender<T>>)
    requires
        changed(before, change, after),
    ensures
        before.to_multiset() == after.to_multiset().add(takes_out(before, change).to_multiset()),
{
    match change {
        Change::TrySend(data, tried, result) => {
            crate::mpsc::laws::only_closed_channels_are_removed(before, data, tried, after, result);
        },
        Change::Step(event, asked) => {
            crate::mpsc::laws::send_removes_what_was_found_closed(before, event, asked, after);
        },
    }
}

/// Every channel that a change takes out stood at a place where the change found it closed.
proof fn lemma_taken_out_was_found_closed<T>(
    before: Seq<Sender<T>>,
    change: Change<T>,
    after: Seq<Sender<T>>,
    q: int,
) -> (i: int)
    requires
        changed(before, change, after),
        0 <= q < takes_out(before, change).len(),
    ensures
        0 <= i < before.len(),
        before[i] == takes_out(before, change)[q],
        finds_closed(before, change, i),
{
    match change {
        Change::TrySend(_, tried, _) => {
            let gone = crate::mpsc::tries::closed_in(tried);
            crate::mpsc::tries::lemma_closed_in(tried);
            let i = gone[q];
            assert(gone.contains(i));
            assert(crate::mpsc::tries::found_closed(tried[i]));
            i
        },
        Change::Step(SendEvent::Start(_), asked) => {
            let gone = crate::mpsc::removal::listed(asked);
            crate::mpsc::removal::lemma_listed(asked);
            let i = gone[q];
            assert(gone.contains(i));
            assert(asked[i]);
            i
        },
        Change::Step(SendEvent::Closed(_, index), _) => index as int,
        Change::Step(SendEvent::Sent, _) => 0,
    }
}

/// What is taken out rests on the collections before the changes, and on no later ones.
proof fn lemma_taken_out_goes_by_its_changes<T>(
    a: Seq<Seq<Sender<T>>>,
    b: Seq<Seq<Sender<T>>>,
    changes: Seq<Change<T>>,
)
    requires
        forall|k: int| 0 <= k < changes.len() ==> #[trigger] a[k] == b[k],
    ensures
        all_taken_out(a, changes) == all_taken_out(b, changes),
    decreases changes.len(),
{
    if changes.len() > 0 {
        assert(a[changes.len() - 1] == b[changes.len() - 1]);
        lemma_taken_out_goes_by_its_changes(a, b, changes.drop_last());
    }
}

} // verus!
