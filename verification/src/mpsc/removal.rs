//! Taking closed channels out of a collection.

use vstd::prelude::*;

verus! {

/// `s` without its element at `i`, whose place the last element takes.
pub open spec fn swap_removed<C>(s: Seq<C>, i: int) -> Seq<C> {
    s.update(i, s.last()).drop_last()
}

/// `s` after its elements at `gone` were taken out one by one, from the last of them to the first.
pub open spec fn swept<C>(s: Seq<C>, gone: Seq<int>) -> Seq<C>
    decreases gone.len(),
{
    if gone.len() == 0 {
        s
    } else {
        swept(swap_removed(s, gone.last()), gone.drop_last())
    }
}

/// `gone` lists places in a sequence of length `len`, each once, in ascending order.
pub open spec fn ascending_within(gone: Seq<int>, len: nat) -> bool {
    &&& forall|k: int| 0 <= k < gone.len() ==> 0 <= #[trigger] gone[k] < len
    &&& forall|j: int, k: int| 0 <= j < k < gone.len() ==> #[trigger] gone[j] < #[trigger] gone[k]
}

/// The places that a vector of machine integers lists.
pub open spec fn places(gone: Seq<usize>) -> Seq<int> {
    gone.map_values(|i: usize| i as int)
}

/// The places, in ascending order, at which `marks` holds `true`.
pub open spec fn listed(marks: Seq<bool>) -> Seq<int>
    decreases marks.len(),
{
    if marks.len() == 0 {
        Seq::empty()
    } else if marks.last() {
        listed(marks.drop_last()).push(marks.len() - 1)
    } else {
        listed(marks.drop_last())
    }
}

/// The elements of `s` at `gone`.
pub open spec fn taken<C>(s: Seq<C>, gone: Seq<int>) -> Seq<C> {
    gone.map_values(|i: int| s[i])
}

/// Removes the elements of `chans` at the places that `gone` lists.
pub fn drop_closed<C>(chans: &mut Vec<C>, gone: Vec<usize>)
    requires
        ascending_within(places(gone@), old(chans)@.len()),
    ensures
        final(chans)@ == swept(old(chans)@, places(gone@)),
{
    let ghost target = swept(chans@, places(gone@));
    let mut left = gone;
    while left.len() > 0
        invariant
            ascending_within(places(left@), chans@.len()),
            swept(chans@, places(left@)) == target,
        ensures
            chans@ == target,
        decreases left@.len(),
    {
        let ghost all = left@;
        if let Some(index) = left.pop() {
            proof {
                assert(places(all).last() == index as int);
                assert(places(all).drop_last() =~= places(left@));
                lemma_rest_ascending(places(all), chans@.len());
            }
            chans.swap_remove(index);
        }
    }
}

/// The places that marks list are theirs, in order, and those only.
pub proof fn lemma_listed(marks: Seq<bool>)
    ensures
        ascending_within(listed(marks), marks.len()),
        forall|i: int|
            0 <= i < marks.len() ==> (listed(marks).contains(i) <==> #[trigger] marks[i]),
    decreases marks.len(),
{
    if marks.len() > 0 {
        let before = marks.drop_last();
        let last = marks.len() - 1;
        lemma_listed(before);
        let found = listed(before);
        if marks.last() {
            assert(listed(marks)[found.len() as int] == last);
        }
        assert forall|i: int| 0 <= i < marks.len() implies (listed(marks).contains(i)
            <==> #[trigger] marks[i]) by {
            if i < last {
                assert(before[i] == marks[i]);
                if found.contains(i) {
                    let k = choose|k: int| 0 <= k < found.len() && found[k] == i;
                    assert(listed(marks)[k] == i);
                }
            }
        }
    }
}

/// A further mark lists its own place, or nothing.
pub proof fn lemma_listed_push(marks: Seq<bool>, mark: bool)
    ensures
        listed(marks.push(mark)) == if mark {
            listed(marks).push(marks.len() as int)
        } else {
            listed(marks)
        },
{
    assert(marks.push(mark).drop_last() =~= marks);
}

/// Where every mark is `true`, every place is listed. Where none is, no place is.
pub proof fn lemma_listed_all_or_none(marks: Seq<bool>)
    ensures
        (forall|i: int| 0 <= i < marks.len() ==> #[trigger] marks[i]) ==> listed(marks).len()
            == marks.len(),
        (forall|i: int| 0 <= i < marks.len() ==> !#[trigger] marks[i]) ==> listed(marks).len() == 0,
    decreases marks.len(),
{
    if marks.len() > 0 {
        assert(marks[marks.len() - 1] == marks.last());
        let before = marks.drop_last();
        assert(forall|i: int| 0 <= i < before.len() ==> #[trigger] before[i] == marks[i]);
        lemma_listed_all_or_none(before);
    }
}

/// Without its last place, a list of places still fits after that place was taken out.
pub proof fn lemma_rest_ascending(gone: Seq<int>, len: nat)
    requires
        gone.len() > 0,
        ascending_within(gone, len),
    ensures
        ascending_within(gone.drop_last(), (len - 1) as nat),
        forall|k: int| 0 <= k < gone.len() - 1 ==> #[trigger] gone.drop_last()[k] < gone.last(),
{
    let last = gone.len() - 1;
    assert forall|k: int| 0 <= k < last implies #[trigger] gone.drop_last()[k] < gone.last() by {
        assert(gone[k] < gone[last]);
    }
    assert(gone[last] < len);
}

/// Taking one element out takes out that one and no other.
pub proof fn lemma_swap_removed<C>(s: Seq<C>, i: int)
    requires
        0 <= i < s.len(),
    ensures
        swap_removed(s, i).len() == s.len() - 1,
        s.to_multiset() == swap_removed(s, i).to_multiset().insert(s[i]),
        forall|k: int|
            0 <= k < s.len() - 1 ==> #[trigger] swap_removed(s, i)[k] == if k == i {
                s.last()
            } else {
                s[k]
            },
{
    broadcast use vstd::seq_lib::group_to_multiset_ensures;

    let moved = s.update(i, s.last());
    let left = swap_removed(s, i);
    assert(left.push(s.last()) =~= moved);
    assert(left.to_multiset().insert(s.last()) =~= moved.to_multiset());
    assert(moved.to_multiset() =~= s.to_multiset().insert(s.last()).remove(s[i]));
    assert(s.to_multiset().count(s[i]) > 0) by {
        assert(s.contains(s[i]));
    }
    assert forall|c: C|
        s.to_multiset().count(c) == #[trigger] left.to_multiset().insert(s[i]).count(c) by {
        assert(left.to_multiset().insert(s.last()).count(c) == moved.to_multiset().count(c));
    }
    assert(s.to_multiset() =~= left.to_multiset().insert(s[i]));
}

/// Sweeping takes out the elements at the places that `gone` lists, and no others.
pub proof fn lemma_swept<C>(s: Seq<C>, gone: Seq<int>)
    requires
        ascending_within(gone, s.len()),
    ensures
        swept(s, gone).len() == s.len() - gone.len(),
        s.to_multiset() == swept(s, gone).to_multiset().add(taken(s, gone).to_multiset()),
        forall|i: int|
            0 <= i < s.len() && !gone.contains(i) ==> swept(s, gone).contains(#[trigger] s[i]),
    decreases gone.len(),
{
    broadcast use vstd::seq_lib::group_to_multiset_ensures;

    if gone.len() == 0 {
        assert(taken(s, gone) =~= Seq::<C>::empty());
        assert(s.to_multiset() =~= s.to_multiset().add(taken(s, gone).to_multiset()));
    } else {
        let last = gone.last();
        let rest = gone.drop_last();
        let next = swap_removed(s, last);
        assert(gone[gone.len() - 1] == last);
        lemma_rest_ascending(gone, s.len());
        lemma_swap_removed(s, last);
        lemma_swept(next, rest);
        assert(taken(s, gone) =~= taken(next, rest).push(s[last])) by {
            assert forall|k: int| 0 <= k < rest.len() implies s[gone[k]] == next[rest[k]] by {
                assert(rest[k] < last);
            }
        }
        assert(s.to_multiset() =~= swept(s, gone).to_multiset().add(taken(s, gone).to_multiset()));
        assert forall|i: int| 0 <= i < s.len() && !gone.contains(i) implies swept(
            s,
            gone,
        ).contains(#[trigger] s[i]) by {
            // Where the element stands after the first removal.
            let at = if i == s.len() - 1 {
                last
            } else {
                i
            };
            assert(next[at] == s[i]);
            if rest.contains(at) {
                let k = choose|k: int| 0 <= k < rest.len() && rest[k] == at;
                assert(gone[k] == at);
                assert(rest[k] < last);
            }
        }
    }
}

/// What is left after a sweep stood in the sequence, at a place that was not swept.
pub proof fn lemma_left_stood_somewhere<C>(s: Seq<C>, gone: Seq<int>, k: int) -> (i: int)
    requires
        ascending_within(gone, s.len()),
        0 <= k < swept(s, gone).len(),
    ensures
        0 <= i < s.len(),
        !gone.contains(i),
        s[i] == swept(s, gone)[k],
    decreases gone.len(),
{
    if gone.len() == 0 {
        k
    } else {
        let last = gone.last();
        let rest = gone.drop_last();
        assert(gone[gone.len() - 1] == last);
        lemma_rest_ascending(gone, s.len());
        lemma_swap_removed(s, last);
        let at = lemma_left_stood_somewhere(swap_removed(s, last), rest, k);
        let i = if at == last {
            s.len() - 1
        } else {
            at
        };
        if gone.contains(i) {
            let j = choose|j: int| 0 <= j < gone.len() && gone[j] == i;
            if j < rest.len() {
                assert(rest[j] == i);
                assert(rest[j] < last);
            }
        }
        i
    }
}

} // verus!
