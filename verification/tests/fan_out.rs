//! The fan-out over real channels.

use std::fmt::Debug;
use std::future::Future;
use std::time::Duration;

use fanout::mpsc::error::SendError;
use fanout::mpsc::error::TrySendError;
use fanout::mpsc::fan_out::SendEvent;
use fanout::mpsc::fan_out::SendStep;
use fanout::mpsc::FanOut;
use futures::future;
use tokio::sync::mpsc::channel;
use tokio::sync::mpsc::error::TryRecvError;
use tokio::sync::mpsc::Receiver;
use tokio::time::timeout;

const MS_10: Duration = Duration::from_millis(10);

fn run<F: Future>(work: F) -> F::Output {
    tokio::runtime::Builder::new_current_thread()
        .enable_time()
        .build()
        .expect("Should have a runtime")
        .block_on(work)
}

/// A send that waits, step by step.
async fn send<T>(sender: &FanOut<T>, data: T) -> Result<(), SendError<T>> {
    let mut chans = sender.chans.lock().await;
    let mut event = SendEvent::Start(data);
    loop {
        match FanOut::send(&mut chans, event) {
            SendStep::Done(result) => return result,
            SendStep::Wait(data) => {
                let (reserved, index, _) =
                    future::select_all(chans.iter().map(|chan| Box::pin(chan.reserve()))).await;
                assert!(index < chans.len());
                event = FanOut::send_locked(data, reserved.map_err(|_| SendError(())), index);
            }
        }
    }
}

async fn try_send<T>(sender: &FanOut<T>, data: T) -> Result<(), TrySendError<T>> {
    let mut chans = sender.chans.lock().await;
    FanOut::try_send(&mut chans, data)
}

async fn assert_send_not_blocked<T: Debug>(duration: Duration, sender: &FanOut<T>, data: T) {
    timeout(duration, send(sender, data))
        .await
        .expect("Timeout sending data")
        .expect("Could not send")
}

async fn assert_send_blocked<T: Debug>(duration: Duration, sender: &FanOut<T>, data: T) {
    timeout(duration, send(sender, data))
        .await
        .expect_err("Should have gotten a timeout sending data, but did not");
}

async fn assert_try_send<T: Debug>(sender: &FanOut<T>, data: T) {
    try_send(sender, data).await.expect("Could not send data")
}

async fn assert_try_send_full<T: Debug>(sender: &FanOut<T>, data: T) {
    match try_send(sender, data).await {
        Ok(()) => panic!("Channel should have been full, but still had capacity"),
        Err(TrySendError::Closed(_)) => panic!("Channel should have been full, but was closed"),
        Err(TrySendError::Full(_)) => {}
    }
}

async fn recv_not_blocked<T>(duration: Duration, rx: &mut Receiver<T>) -> T {
    timeout(duration, rx.recv())
        .await
        .expect("Should not have blocked receiving")
        .expect("Should have received data")
}

fn assert_empty(rx: &mut Receiver<usize>) {
    assert_eq!(Err(TryRecvError::Empty), rx.try_recv(), "Channel should be empty");
}

fn assert_disconnected(rx: &mut Receiver<usize>) {
    assert_eq!(
        Err(TryRecvError::Disconnected),
        rx.try_recv(),
        "Channel should be disconnected once the FanOut has been dropped"
    );
}

#[test]
fn send_basic() {
    run(async {
        let (tx1, mut rx1) = channel::<usize>(1);
        let (tx2, mut rx2) = channel::<usize>(1);
        let (tx3, mut rx3) = channel::<usize>(1);

        let sender = FanOut::from(vec![tx1, tx2, tx3]);

        // The order here is critical to the test.

        // The channels each have a buffer size of 1. Fill them.
        assert_send_not_blocked(MS_10, &sender, 1).await;
        assert_send_not_blocked(MS_10, &sender, 2).await;
        assert_send_not_blocked(MS_10, &sender, 3).await;

        // The channels should now be full, so we shouldn't be able to send.
        assert_send_blocked(MS_10, &sender, usize::MAX).await;

        // Since all the channels are full, whichever one we read from should receive the next send.
        assert_eq!(3, recv_not_blocked(MS_10, &mut rx3).await);
        assert_send_not_blocked(MS_10, &sender, 4).await;
        assert_eq!(4, recv_not_blocked(MS_10, &mut rx3).await);

        // OK, go ahead and read from these early ones.
        assert_eq!(2, recv_not_blocked(MS_10, &mut rx2).await);
        assert_eq!(1, recv_not_blocked(MS_10, &mut rx1).await);

        // The channels should all be empty, now.
        assert_empty(&mut rx1);
        assert_empty(&mut rx2);
        assert_empty(&mut rx3);

        // Dropping the sender should close the channels.
        drop(sender);

        assert_disconnected(&mut rx1);
        assert_disconnected(&mut rx2);
        assert_disconnected(&mut rx3);
    });
}

#[test]
fn send_some_closed() {
    run(async {
        let (tx1, mut rx1) = channel::<usize>(1);
        let (tx2, rx2) = channel::<usize>(1);
        let (tx3, mut rx3) = channel::<usize>(1);

        let sender = FanOut::from(vec![tx1, tx2, tx3]);

        drop(rx2);

        assert_eq!(
            3,
            sender.chans.lock().await.len(),
            "All the channels should be in the collection"
        );
        assert_send_not_blocked(MS_10, &sender, 1).await;
        assert_send_not_blocked(MS_10, &sender, 2).await;
        assert_send_blocked(MS_10, &sender, 3).await;
        assert_eq!(
            2,
            sender.chans.lock().await.len(),
            "The closed channel should have been removed"
        );
        assert_eq!(1, recv_not_blocked(MS_10, &mut rx1).await);
        assert_eq!(2, recv_not_blocked(MS_10, &mut rx3).await);

        // Dropping the sender should close the remaining channels.
        drop(sender);

        assert_disconnected(&mut rx1);
        assert_disconnected(&mut rx3);
    });
}

#[test]
fn send_all_closed() {
    run(async {
        let (tx1, rx1) = channel::<usize>(1);
        let (tx2, rx2) = channel::<usize>(1);
        let (tx3, rx3) = channel::<usize>(1);

        let sender = FanOut::from(vec![tx1, tx2, tx3]);

        drop(rx1);
        drop(rx2);
        drop(rx3);

        assert_eq!(
            3,
            sender.chans.lock().await.len(),
            "All the channels should be in the collection"
        );
        let error = timeout(MS_10, send(&sender, usize::MAX))
            .await
            .expect("Timed out sending with no open channels")
            .expect_err("Should have gotten an error when sending with no remaining open channels");
        assert_eq!(SendError(usize::MAX), error);
        assert_eq!(
            0,
            sender.chans.lock().await.len(),
            "The closed channels should have been removed"
        );
    });
}

#[test]
fn try_send_basic() {
    run(async {
        let (tx1, mut rx1) = channel::<usize>(1);
        let (tx2, mut rx2) = channel::<usize>(1);
        let (tx3, mut rx3) = channel::<usize>(1);

        let sender = FanOut::from(vec![tx1, tx2, tx3]);

        // The order here is critical to the test.

        // The channels each have a buffer size of 1. Fill them.
        assert_try_send(&sender, 1).await;
        assert_try_send(&sender, 2).await;
        assert_try_send(&sender, 3).await;

        // The channels should now be full, so we shouldn't be able to send.
        assert_try_send_full(&sender, usize::MAX).await;

        // Since all the channels are full, whichever one we read from should receive the next send.
        assert_eq!(3, recv_not_blocked(MS_10, &mut rx3).await);
        assert_try_send(&sender, 4).await;
        assert_eq!(4, recv_not_blocked(MS_10, &mut rx3).await);

        // OK, go ahead and read from these early ones.
        assert_eq!(2, recv_not_blocked(MS_10, &mut rx2).await);
        assert_eq!(1, recv_not_blocked(MS_10, &mut rx1).await);

        // The channels should all be empty, now.
        assert_empty(&mut rx1);
        assert_empty(&mut rx2);
        assert_empty(&mut rx3);

        // Dropping the sender should close the channels.
        drop(sender);

        assert_disconnected(&mut rx1);
        assert_disconnected(&mut rx2);
        assert_disconnected(&mut rx3);
    });
}

#[test]
fn try_send_some_closed() {
    run(async {
        let (tx1, mut rx1) = channel::<usize>(1);
        let (tx2, rx2) = channel::<usize>(1);
        let (tx3, mut rx3) = channel::<usize>(1);

        let sender = FanOut::from(vec![tx1, tx2, tx3]);

        drop(rx2);

        assert_eq!(
            3,
            sender.chans.lock().await.len(),
            "All the channels should be in the collection"
        );
        assert_send_not_blocked(MS_10, &sender, 1).await;
        assert_send_not_blocked(MS_10, &sender, 2).await;
        assert_send_blocked(MS_10, &sender, 3).await;
        assert_eq!(
            2,
            sender.chans.lock().await.len(),
            "The closed channel should have been removed"
        );
        assert_eq!(1, recv_not_blocked(MS_10, &mut rx1).await);
        assert_eq!(2, recv_not_blocked(MS_10, &mut rx3).await);

        // Dropping the sender should close the remaining channels.
        drop(sender);

        assert_disconnected(&mut rx1);
        assert_disconnected(&mut rx3);
    });
}

#[test]
fn try_send_all_closed() {
    run(async {
        let (tx1, rx1) = channel::<usize>(1);
        let (tx2, rx2) = channel::<usize>(1);
        let (tx3, rx3) = channel::<usize>(1);

        let sender = FanOut::from(vec![tx1, tx2, tx3]);

        drop(rx1);
        drop(rx2);
        drop(rx3);

        assert_eq!(
            3,
            sender.chans.lock().await.len(),
            "All the channels should be in the collection"
        );
        assert_eq!(
            Err(TrySendError::Closed(usize::MAX)),
            try_send(&sender, usize::MAX).await,
            ""
        );
        assert_eq!(
            0,
            sender.chans.lock().await.len(),
            "The closed channels should have been removed"
        );
    });
}

#[test]
fn into_inner_gives_the_channels_back() {
    let (tx1, _rx1) = channel::<usize>(1);
    let (tx2, _rx2) = channel::<usize>(1);
    let sender = FanOut::new(vec![tx1.clone(), tx2.clone()]);

    let chans = FanOut::into_inner(sender).unwrap_or_else(|_| panic!("Should not be in use"));

    assert_eq!(2, chans.len());
    assert!(chans[0].same_channel(&tx1));
    assert!(chans[1].same_channel(&tx2));
}

#[test]
fn into_inner_refuses_while_in_use() {
    let (tx, _rx) = channel::<usize>(1);
    let sender = FanOut::new(vec![tx.clone()]);
    let other = sender.clone();

    let back = match FanOut::into_inner(sender) {
        Ok(_) => panic!("Should be in use"),
        Err(back) => back,
    };
    assert!(std::sync::Arc::ptr_eq(&back.chans, &other.chans));

    drop(other);
    let chans = FanOut::into_inner(back).unwrap_or_else(|_| panic!("Should not be in use"));
    assert!(chans[0].same_channel(&tx));
}

#[test]
fn unwrapped_goes_by_what_came_of_the_handle() {
    let (tx, _rx) = channel::<usize>(1);
    let lock = tokio::sync::Mutex::new(vec![tx.clone()]);
    match FanOut::unwrapped(Ok(lock)) {
        Ok(chans) => assert!(chans[0].same_channel(&tx)),
        Err(_) => panic!("Should have given the channels"),
    }

    let handle = FanOut::new(vec![tx]).chans;
    match FanOut::unwrapped(Err(handle.clone())) {
        Ok(_) => panic!("Should have given the handle back"),
        Err(back) => assert!(std::sync::Arc::ptr_eq(&back.chans, &handle)),
    }
}

#[test]
fn into_inner_refuses_while_a_send_is_pending() {
    run(async {
        let (tx, mut rx) = channel::<usize>(1);
        let sender = FanOut::new(vec![tx]);
        assert_try_send(&sender, 1).await;

        let other = sender.clone();
        let pending = tokio::task::spawn(async move { send(&other, 2).await });
        tokio::task::yield_now().await;
        let back = match FanOut::into_inner(sender) {
            Ok(_) => panic!("Should be in use"),
            Err(back) => back,
        };

        assert_eq!(1, recv_not_blocked(MS_10, &mut rx).await);
        assert_eq!(Ok(()), pending.await.expect("Should have ended"));
        assert_eq!(2, recv_not_blocked(MS_10, &mut rx).await);
        assert!(FanOut::into_inner(back).is_ok());
    });
}

#[test]
fn clones_share_the_channels() {
    run(async {
        let (tx1, rx1) = channel::<usize>(1);
        let (tx2, mut rx2) = channel::<usize>(1);
        let sender = FanOut::new(vec![tx1, tx2]);
        let other = sender.clone();
        drop(rx1);

        assert_try_send(&other, 7).await;

        assert_eq!(1, sender.chans.lock().await.len());
        assert_eq!(7, recv_not_blocked(MS_10, &mut rx2).await);
    });
}

#[test]
fn try_send_takes_the_first_available_channel() {
    let (tx1, mut rx1) = channel::<usize>(1);
    let (tx2, mut rx2) = channel::<usize>(2);
    let (tx3, mut rx3) = channel::<usize>(2);
    let mut chans = vec![tx1, tx2, tx3];

    assert_eq!(Ok(()), FanOut::try_send(&mut chans, 1));
    assert_eq!(Ok(()), FanOut::try_send(&mut chans, 2));
    assert_eq!(Ok(()), FanOut::try_send(&mut chans, 3));

    assert_eq!(Ok(1), rx1.try_recv());
    assert_eq!(Ok(2), rx2.try_recv());
    assert_eq!(Ok(3), rx2.try_recv());
    assert_empty(&mut rx3);
    assert_eq!(3, chans.len());
}

#[test]
fn try_send_removes_only_the_closed_channels_that_it_meets() {
    let (tx1, rx1) = channel::<usize>(1);
    let (tx2, mut rx2) = channel::<usize>(1);
    let (tx3, rx3) = channel::<usize>(1);
    let mut chans = vec![tx1.clone(), tx2.clone(), tx3.clone()];
    drop(rx1);
    drop(rx3);

    assert_eq!(Ok(()), FanOut::try_send(&mut chans, 5));

    // The last channel was not tried. It took the place of the first.
    assert_eq!(2, chans.len());
    assert!(chans[0].same_channel(&tx3));
    assert!(chans[1].same_channel(&tx2));
    assert_eq!(Ok(5), rx2.try_recv());
}

#[test]
fn try_send_is_full_when_an_open_channel_is() {
    let (tx1, rx1) = channel::<usize>(1);
    let (tx2, mut rx2) = channel::<usize>(1);
    let mut chans = vec![tx1, tx2.clone()];
    drop(rx1);
    tx2.try_send(1).expect("Should have room");

    assert_eq!(Err(TrySendError::Full(9)), FanOut::try_send(&mut chans, 9));

    assert_eq!(1, chans.len());
    assert!(chans[0].same_channel(&tx2));
    assert_eq!(Ok(1), rx2.try_recv());
    assert_empty(&mut rx2);
}

#[test]
fn sends_without_channels_hand_the_data_back() {
    let mut chans = Vec::new();

    assert_eq!(Err(TrySendError::Closed(3)), FanOut::try_send(&mut chans, 3));
    assert_eq!(
        SendStep::Done(Err(SendError(3))),
        FanOut::send(&mut chans, SendEvent::Start(3))
    );
    assert_eq!(0, chans.len());
}

#[test]
fn send_ends_with_the_data_when_every_channel_is_closed() {
    let (tx1, _rx1) = channel::<usize>(1);
    let (tx2, _rx2) = channel::<usize>(1);
    let (tx3, _rx3) = channel::<usize>(1);
    let mut chans = vec![tx1, tx2.clone(), tx3.clone()];

    assert_eq!(SendStep::Wait(8), FanOut::send(&mut chans, SendEvent::Start(8)));
    assert_eq!(3, chans.len());

    let event = FanOut::send_locked(8, Err(SendError(())), 0);
    assert_eq!(SendEvent::Closed(8, 0), event);
    assert_eq!(SendStep::Wait(8), FanOut::send(&mut chans, event));
    assert_eq!(2, chans.len());
    assert!(chans[0].same_channel(&tx3));
    assert!(chans[1].same_channel(&tx2));

    let event = FanOut::send_locked(8, Err(SendError(())), 1);
    assert_eq!(SendEvent::Closed(8, 1), event);
    assert_eq!(SendStep::Wait(8), FanOut::send(&mut chans, event));
    assert_eq!(1, chans.len());
    assert!(chans[0].same_channel(&tx3));

    let event = FanOut::send_locked(8, Err(SendError(())), 0);
    assert_eq!(
        SendStep::Done(Err(SendError(8))),
        FanOut::send(&mut chans, event)
    );
    assert_eq!(0, chans.len());
}

#[test]
fn send_locked_puts_the_data_into_the_reserved_room() {
    let (tx, mut rx) = channel::<usize>(1);
    let mut chans = vec![tx.clone()];
    let permit = tx.try_reserve().expect("Should have room");

    let event = FanOut::send_locked(6, Ok(permit), 0);

    assert_eq!(SendEvent::Sent, event);
    assert_eq!(SendStep::Done(Ok(())), FanOut::send(&mut chans, event));
    assert_eq!(1, chans.len());
    assert_eq!(Ok(6), rx.try_recv());
}

#[test]
fn send_removes_a_closed_channel_behind_a_ready_one() {
    run(async {
        let (tx1, mut rx1) = channel::<usize>(1);
        let (tx2, rx2) = channel::<usize>(1);
        let sender = FanOut::new(vec![tx1.clone(), tx2]);
        drop(rx2);

        assert_send_not_blocked(MS_10, &sender, 1).await;

        let chans = sender.chans.lock().await;
        assert_eq!(1, chans.len());
        assert!(chans[0].same_channel(&tx1));
        assert_eq!(Ok(1), rx1.try_recv());
    });
}

#[test]
fn send_starts_by_removing_the_closed_channels() {
    let (tx1, rx1) = channel::<usize>(1);
    let (tx2, _rx2) = channel::<usize>(1);
    let (tx3, rx3) = channel::<usize>(1);
    let (tx4, _rx4) = channel::<usize>(1);
    let mut chans = vec![tx1, tx2.clone(), tx3, tx4.clone()];
    drop(rx1);
    drop(rx3);

    assert_eq!(SendStep::Wait(2), FanOut::send(&mut chans, SendEvent::Start(2)));

    assert_eq!(2, chans.len());
    assert!(chans[0].same_channel(&tx4));
    assert!(chans[1].same_channel(&tx2));
}

#[test]
fn waiting_send_goes_to_the_channel_that_frees_a_slot() {
    run(async {
        let (tx1, mut rx1) = channel::<usize>(1);
        let (tx2, mut rx2) = channel::<usize>(1);
        let sender = FanOut::new(vec![tx1, tx2]);
        assert_try_send(&sender, 1).await;
        assert_try_send(&sender, 2).await;

        let other = sender.clone();
        let pending = tokio::task::spawn(async move { send(&other, 3).await });
        tokio::task::yield_now().await;
        assert_eq!(Ok(2), rx2.try_recv());

        assert_eq!(Ok(()), pending.await.expect("Should have ended"));
        assert_eq!(Ok(3), rx2.try_recv());
        assert_eq!(Ok(1), rx1.try_recv());
        assert_empty(&mut rx1);
        assert_eq!(2, sender.chans.lock().await.len());
    });
}

#[test]
fn waiting_send_fails_when_every_channel_closes() {
    run(async {
        let (tx1, rx1) = channel::<usize>(1);
        let (tx2, rx2) = channel::<usize>(1);
        let sender = FanOut::new(vec![tx1, tx2]);
        assert_try_send(&sender, 1).await;
        assert_try_send(&sender, 2).await;

        let other = sender.clone();
        let pending = tokio::task::spawn(async move { send(&other, 3).await });
        tokio::task::yield_now().await;
        drop(rx2);
        drop(rx1);

        assert_eq!(Err(SendError(3)), pending.await.expect("Should have ended"));
        assert_eq!(0, sender.chans.lock().await.len());
    });
}

#[test]
fn try_sends_use_every_free_slot() {
    let (tx1, mut rx1) = channel::<usize>(2);
    let (tx2, rx2) = channel::<usize>(4);
    let (tx3, mut rx3) = channel::<usize>(1);
    let mut chans = vec![tx1, tx2, tx3];
    drop(rx2);

    assert_eq!(Ok(()), FanOut::try_send(&mut chans, 1));
    assert_eq!(Ok(()), FanOut::try_send(&mut chans, 2));
    assert_eq!(Ok(()), FanOut::try_send(&mut chans, 3));
    assert_eq!(Err(TrySendError::Full(4)), FanOut::try_send(&mut chans, 4));

    assert_eq!(2, chans.len());
    assert_eq!(Ok(1), rx1.try_recv());
    assert_eq!(Ok(2), rx1.try_recv());
    assert_empty(&mut rx1);
    assert_eq!(Ok(3), rx3.try_recv());
    assert_empty(&mut rx3);
}

#[test]
fn sends_remove_closed_channels_only() {
    run(async {
        let (tx1, rx1) = channel::<usize>(4);
        let (tx2, _rx2) = channel::<usize>(4);
        let (tx3, rx3) = channel::<usize>(4);
        let (tx4, _rx4) = channel::<usize>(4);
        let sender = FanOut::new(vec![tx1, tx2.clone(), tx3, tx4.clone()]);

        assert_try_send(&sender, 1).await;
        drop(rx3);
        assert_send_not_blocked(MS_10, &sender, 2).await;
        drop(rx1);
        assert_try_send(&sender, 3).await;

        let chans = FanOut::into_inner(sender).unwrap_or_else(|_| panic!("Should not be in use"));
        assert_eq!(2, chans.len());
        assert!(chans.iter().any(|chan| chan.same_channel(&tx2)));
        assert!(chans.iter().any(|chan| chan.same_channel(&tx4)));
    });
}

#[test]
fn from_iter_keeps_the_channels_in_order() {
    let (tx1, mut rx1) = channel::<usize>(1);
    let (tx2, rx2) = channel::<usize>(1);
    let (tx3, _rx3) = channel::<usize>(1);
    let others = [tx2.clone(), tx3.clone()];
    drop(rx2);

    let sender = FanOut::from_iter(vec![tx1, tx2, tx3].into_iter());

    let chans = run(sender.chans.lock());
    assert_eq!(3, chans.len());
    assert!(chans[1].same_channel(&others[0]));
    assert!(chans[2].same_channel(&others[1]));
    assert_empty(&mut rx1);
    drop(chans);
    drop(sender);
    assert_disconnected(&mut rx1);
}

#[test]
fn into_inner_keeps_closed_channels_that_no_send_met() {
    let (tx1, rx1) = channel::<usize>(1);
    let (tx2, _rx2) = channel::<usize>(1);
    let sender = FanOut::new(vec![tx1.clone(), tx2.clone()]);
    drop(rx1);

    let chans = FanOut::into_inner(sender).unwrap_or_else(|_| panic!("Should not be in use"));

    assert_eq!(2, chans.len());
    assert!(chans[0].same_channel(&tx1));
    assert!(chans[1].same_channel(&tx2));
}
