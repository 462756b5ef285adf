# async-cancellation-token

Cancellation tokens for cooperative cancellation of asynchronous tasks and callbacks, in a single
thread, verified with [Verus](https://github.com/verus-lang/verus).

- `CancellationTokenSource` cancels the tokens associated with it.
- `CancellationToken` can be checked, awaited, and given one-time callbacks.
- Callbacks run in registration order, each exactly once; then every waiting task is woken,
  in the order in which they came.
- Cancelling again has no effect. A callback registered after the cancellation runs at once.
- A registration that is given up before the cancellation removes its callback.
- A future that waits is woken exactly once, through the waker that it was polled with last.

## Layout

- `src/callback.rs`, `src/callbacks.rs`: the callbacks, stored in a slab under stable keys, and the
  order in which they were registered.
- `src/waiting.rs`: the wakers of the waiting tasks, and how many futures wait through each.
- `src/keyed.rs`: lists of entries with distinct keys.
- `src/state.rs`, `src/action.rs`: the state that a source shares with its tokens, what each
  operation does to it, and what a cancellation asks for.
- `src/event.rs`: the operations as events of a history.
- `src/inner.rs`, `src/record.rs`: the cell with the shared state, and the record of what an
  operation does: which state it takes out of the cell and puts back, and which callbacks it calls
  and tasks it wakes, in this order and nothing else.
- `src/source.rs`, `src/token.rs`, `src/registration.rs`, `src/future.rs`, `src/cancel.rs`,
  `src/release.rs`: the handles that share the state, and their operations.
- `src/laws.rs`: what holds over any history of events.
- `src/waits.rs`: what holds of the futures that wait: each is woken once, through the waker of its
  last poll.
- `src/outside.rs`: what is taken for granted of `Cell` and `Waker`; the slab's part stands in
  `src/callbacks.rs`.
- `app/`: the `Future` and `Drop` behaviour, and the error type with `Display`.
