//! Cancellation tokens for cooperative cancellation of asynchronous tasks and callbacks, in a
//! single thread.
//!
//! - A [`CancellationTokenSource`] cancels the [`CancellationToken`]s associated with it.
//! - A token can be checked, awaited through [`CancellationToken::cancelled`], and given one-time
//!   callbacks that run on cancellation.
//!
//! A source and its tokens share a state. `state` says what each operation does to it, and `event`
//! what the operations come to as events of a history. `laws` says what holds over any history,
//! `waits` what holds of the futures that wait, and `continuity` what follows for the state that an
//! operation finds from the log of all that has happened to it.

pub mod action;
pub mod callback;
pub mod callbacks;
pub mod cancel;
pub mod cancelled;
pub mod cell;
pub mod continuity;
pub mod event;
pub mod future;
pub mod inner;
pub mod keyed;
pub mod laws;
pub mod layers;
pub mod outside;
pub mod record;
pub mod registration;
pub mod release;
pub mod source;
pub mod state;
pub mod token;
pub mod waiting;
pub mod waits;

pub use cancelled::Cancelled;
pub use future::CancelledFuture;
pub use inner::Inner;
pub use registration::CancellationTokenRegistration;
pub use source::CancellationTokenSource;
pub use state::Progress;
pub use token::CancellationToken;
