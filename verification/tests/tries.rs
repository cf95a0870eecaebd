//! The decisions of a send that does not wait, on given outcomes.

use fanout::mpsc::error::TrySendError;
use fanout::mpsc::removal::drop_closed;
use fanout::mpsc::tries::conclude;
use fanout::mpsc::tries::note_try;

#[test]
fn closed_channels_give_way_to_the_last_ones() {
    let mut chans = vec!['a', 'b', 'c', 'd', 'e'];
    drop_closed(&mut chans, vec![0, 2]);
    assert_eq!(vec!['d', 'b', 'e'], chans);

    let mut chans = vec!['a', 'b', 'c', 'd'];
    drop_closed(&mut chans, vec![1, 3]);
    assert_eq!(vec!['a', 'c'], chans);

    let mut chans = vec!['a', 'b'];
    drop_closed(&mut chans, vec![0, 1]);
    assert!(chans.is_empty());

    let mut chans = vec!['a', 'b'];
    drop_closed(&mut chans, Vec::new());
    assert_eq!(vec!['a', 'b'], chans);
}

#[test]
fn a_try_is_noted_by_its_outcome() {
    let mut closed = vec![1];
    assert_eq!(None, note_try::<u8>(&mut closed, 2, Ok(())));
    assert_eq!(vec![1], closed);
    assert_eq!(Some(9), note_try(&mut closed, 3, Err(TrySendError::Full(9))));
    assert_eq!(vec![1], closed);
    assert_eq!(Some(9), note_try(&mut closed, 4, Err(TrySendError::Closed(9))));
    assert_eq!(vec![1, 4], closed);
}

#[test]
fn the_verdict_goes_by_the_channels_that_are_left() {
    let mut chans = vec!['a', 'b'];
    assert_eq!(Err(TrySendError::Full(5)), conclude(&mut chans, vec![0], Some(5)));
    assert_eq!(vec!['b'], chans);

    assert_eq!(Err(TrySendError::Closed(5)), conclude(&mut chans, vec![0], Some(5)));
    assert!(chans.is_empty());

    let mut chans = vec!['a', 'b', 'c'];
    assert_eq!(Ok(()), conclude::<char, u8>(&mut chans, vec![0], None));
    assert_eq!(vec!['c', 'b'], chans);
}
