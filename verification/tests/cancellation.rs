use std::cell::Cell;
use std::future::Future;
use std::pin::Pin;
use std::rc::{Rc, Weak};
use std::task::{Context, Poll};
use std::time::Duration;

use async_cancellation_token::{
    CancellationToken, CancellationTokenRegistration, CancellationTokenSource, CancelledFuture,
    Inner, Progress,
};
use futures::executor::LocalPool;
use futures::future::{select, Either};
use futures::task::LocalSpawnExt;
use futures::FutureExt;
use futures_timer::Delay;

/// The wait for a cancellation, as a future.
struct Wait(CancelledFuture);

impl Future for Wait {
    type Output = ();

    fn poll(self: Pin<&mut Self>, cx: &mut Context<'_>) -> Poll<()> {
        match self.get_mut().0.poll(cx.waker()) {
            Progress::Ready => Poll::Ready(()),
            Progress::Pending => Poll::Pending,
        }
    }
}

/// A registration that is released when it is dropped.
struct Guard {
    inner: Weak<Inner>,
    registration: Option<CancellationTokenRegistration>,
}

impl Drop for Guard {
    fn drop(&mut self) {
        if let Some(registration) = self.registration.take() {
            registration.release(self.inner.upgrade());
        }
    }
}

fn register(token: &CancellationToken, f: impl FnOnce() + 'static) -> Option<Guard> {
    token.register(f).map(|registration| Guard {
        inner: Rc::downgrade(token.inner()),
        registration: Some(registration),
    })
}

/// Test cooperative cancellation of two tasks with different mechanisms.
#[test]
fn cancel_two_tasks() {
    let cancelled_a = Rc::new(Cell::new(false));
    let cancelled_b = Rc::new(Cell::new(false));

    let task_a = |token: CancellationToken| {
        let cancelled_a = Rc::clone(&cancelled_a);

        async move {
            for _ in 1..=5 {
                let delay = Delay::new(Duration::from_millis(50));
                let cancelled = Wait(token.cancelled());

                match select(delay, cancelled).await {
                    Either::Left(_) => {}
                    Either::Right(_) => {
                        cancelled_a.set(true);
                        break;
                    }
                }
            }
        }
    };

    let task_b = |token: CancellationToken| {
        let cancelled_b = Rc::clone(&cancelled_b);

        async move {
            for _ in 1..=5 {
                Delay::new(Duration::from_millis(80)).await;

                if token.check_cancelled().is_err() {
                    cancelled_b.set(true);
                    break;
                }
            }
        }
    };

    let cts = CancellationTokenSource::new();
    let mut pool = LocalPool::new();
    let spawner = pool.spawner();

    spawner
        .spawn_local(task_a(cts.token()).map(|_| ()))
        .unwrap();
    spawner
        .spawn_local(task_b(cts.token()).map(|_| ()))
        .unwrap();

    // Cancel after 200ms
    {
        let cts_clone = cts.clone();
        spawner
            .spawn_local(
                async move {
                    Delay::new(Duration::from_millis(200)).await;
                    cts_clone.cancel();
                }
                .map(|_| ()),
            )
            .unwrap();
    }

    pool.run();

    // Cancelled flags should be set
    assert!(cts.is_cancelled());
    assert!(cancelled_a.get());
    assert!(cancelled_b.get());

    // Calling cancel again should not panic or change state
    cts.cancel();
    assert!(cts.is_cancelled());
}

/// Test registering callbacks before and after cancellation, including drop behaviour.
#[test]
fn cancellation_register_callbacks() {
    let cts = CancellationTokenSource::new();
    let token = cts.token();

    let flag_before = Rc::new(Cell::new(false));
    let flag_after = Rc::new(Cell::new(false));
    let flag_drop = Rc::new(Cell::new(false));

    // 1. Callback registered before cancel: should execute
    let reg_before = {
        let flag = Rc::clone(&flag_before);
        register(&token, move || {
            flag.set(true);
        })
        .unwrap()
    };

    cts.cancel();
    assert!(flag_before.get());

    drop(reg_before);

    // 2. Callback registered after cancel: executes immediately
    {
        let flag = Rc::clone(&flag_after);
        register(&token, move || {
            flag.set(true);
        });
    }
    assert!(flag_after.get());

    // 3. Callback registered but dropped before cancel: should NOT execute
    let cts2 = CancellationTokenSource::new();
    let token2 = cts2.token();
    let reg_drop = {
        let flag = Rc::clone(&flag_drop);
        register(&token2, move || {
            flag.set(true);
        })
        .unwrap()
    };
    drop(reg_drop); // dropped before cancel
    cts2.cancel();
    assert!(!flag_drop.get());
}

/// Test that the wait is ready after cancellation.
#[test]
fn cancelled_future_poll_ready() {
    let cts = CancellationTokenSource::new();
    let token = cts.token();
    let mut pool = LocalPool::new();
    let spawner = pool.spawner();

    let finished = Rc::new(Cell::new(false));
    let finished_clone = Rc::clone(&finished);

    spawner
        .spawn_local(
            async move {
                Wait(token.cancelled()).await;
                finished_clone.set(true);
            }
            .map(|_| ()),
        )
        .unwrap();

    // Cancel token
    cts.cancel();

    pool.run();
    assert!(finished.get());
}

/// Test multiple callbacks and idempotent cancellation.
#[test]
fn multiple_callbacks_and_idempotent_cancel() {
    let cts = CancellationTokenSource::new();
    let token = cts.token();

    let flags: Vec<_> = (0..3).map(|_| Rc::new(Cell::new(false))).collect();

    let regs: Vec<_> = flags
        .iter()
        .map(|flag| {
            let f = Rc::clone(flag);
            register(&token, move || {
                f.set(true);
            })
            .unwrap()
        })
        .collect();

    // Cancel once
    cts.cancel();
    for flag in &flags {
        assert!(flag.get());
    }

    // Cancel again: should not panic, flags remain true
    cts.cancel();
    for flag in &flags {
        assert!(flag.get());
    }

    drop(regs); // dropping after cancel: nothing happens, still safe
}

/// A task that waits before the cancellation is woken by it.
#[test]
fn waiting_task_is_woken() {
    let cts = CancellationTokenSource::new();
    let token = cts.token();
    let mut pool = LocalPool::new();
    let spawner = pool.spawner();

    let finished = Rc::new(Cell::new(false));
    let finished_clone = Rc::clone(&finished);
    spawner
        .spawn_local(async move {
            Wait(token.cancelled()).await;
            finished_clone.set(true);
        })
        .unwrap();

    pool.run_until_stalled();
    assert!(!finished.get());
    assert_eq!(cts.inner().summary(), (false, 1, 0));

    cts.cancel();
    pool.run_until_stalled();
    assert!(finished.get());
    assert_eq!(cts.inner().summary(), (true, 0, 0));
}

/// Dropping a registration when the shared state is gone does nothing, and the shared state does
/// not live on for the registration's sake.
#[test]
fn registration_does_not_keep_the_state() {
    let captured = Rc::new(Cell::new(0));
    let cts = CancellationTokenSource::new();
    let guard = {
        let captured = Rc::clone(&captured);
        register(&cts.token(), move || captured.set(1)).unwrap()
    };
    assert_eq!(Rc::strong_count(&captured), 2);
    drop(cts);
    assert_eq!(Rc::strong_count(&captured), 1);
    assert!(guard.inner.upgrade().is_none());
    drop(guard);
    assert_eq!(captured.get(), 0);
}

/// A token whose source is gone takes callbacks, which never run, and gives them up.
#[test]
fn token_without_source_registers() {
    let flag = Rc::new(Cell::new(false));
    let token = CancellationTokenSource::new().token();
    let guard = {
        let flag = Rc::clone(&flag);
        register(&token, move || flag.set(true))
    };
    assert!(guard.is_some());
    assert!(!flag.get());
    assert_eq!(token.inner().summary(), (false, 0, 1));
    drop(guard);
    assert!(!flag.get());
    assert!(!token.is_cancelled());
    assert_eq!(token.inner().summary(), (false, 0, 0));
    assert_eq!(Rc::strong_count(&flag), 1);
}
