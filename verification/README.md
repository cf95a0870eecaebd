# fanout

Fans values out to several bounded `tokio` channels: each value that is sent goes to one of them.

- `src/` is the verified library. `mpsc::FanOut` holds the channels behind their lock.
  `FanOut::try_send` offers data to each channel in turn. `FanOut::send` and `FanOut::send_locked`
  are the steps of a send that waits. `mpsc::laws`, `mpsc::history` and `mpsc::slots` state what
  holds of one send, of any number of sends, and of sends that nothing else disturbs.
  `mpsc` itself holds what is taken from `tokio` and the standard library on trust.
- `app/` is the asynchronous front: it takes the lock, waits for the channels, and leaves each
  decision to the library.
- `tests/` runs the library over real channels.
