use std::cell::{Cell, RefCell};
use std::rc::Rc;
use std::sync::atomic::{AtomicUsize, Ordering};
use std::sync::Arc;
use std::task::{Wake, Waker};

use async_cancellation_token::{
    CancellationToken, CancellationTokenRegistration, CancellationTokenSource, Cancelled, Progress,
};

type Log = Rc<RefCell<Vec<u32>>>;

/// A callback that writes `n` into the log.
fn note(log: &Log, n: u32) -> impl FnOnce() + 'static {
    let log = Rc::clone(log);
    move || log.borrow_mut().push(n)
}

fn release(token: &CancellationToken, registration: Option<CancellationTokenRegistration>) {
    registration
        .unwrap()
        .release(Some(Rc::clone(token.inner())));
}

/// Counts how often it is woken.
struct Counter(AtomicUsize);

impl Wake for Counter {
    fn wake(self: Arc<Self>) {
        self.0.fetch_add(1, Ordering::SeqCst);
    }
}

fn counter() -> (Arc<Counter>, Waker) {
    let counter = Arc::new(Counter(AtomicUsize::new(0)));
    let waker = Waker::from(Arc::clone(&counter));
    (counter, waker)
}

#[test]
fn new_source_is_not_cancelled() {
    let cts = CancellationTokenSource::new();
    let token = cts.token();
    assert!(!cts.is_cancelled());
    assert!(!token.is_cancelled());
    assert_eq!(token.check_cancelled(), Ok(()));
    assert_eq!(cts.inner().summary(), (false, 0, 0));

    let default = CancellationTokenSource::default();
    assert!(!default.is_cancelled());
}

#[test]
fn cancel_reaches_every_token() {
    let cts = CancellationTokenSource::new();
    let early = cts.token();
    let copy = early.clone();
    let other_source = cts.clone();
    other_source.cancel();
    let late = cts.token();

    assert!(cts.is_cancelled());
    assert!(other_source.is_cancelled());
    for token in [&early, &copy, &late] {
        assert!(token.is_cancelled());
        assert_eq!(token.check_cancelled(), Err(Cancelled));
    }
}

#[test]
fn sources_are_independent() {
    let one = CancellationTokenSource::new();
    let two = CancellationTokenSource::new();
    let log: Log = Rc::default();
    let (woken, waker) = counter();
    one.token().register(note(&log, 1));
    two.token().register(note(&log, 2));
    assert_eq!(two.token().cancelled().poll(&waker), Progress::Pending);
    one.cancel();
    assert!(one.token().is_cancelled());
    assert!(!two.token().is_cancelled());
    assert_eq!(two.inner().summary(), (false, 1, 1));
    assert_eq!(times(&woken), 0);
    assert_eq!(*log.borrow(), [1]);
    two.cancel();
    assert_eq!(times(&woken), 1);
    assert_eq!(*log.borrow(), [1, 2]);
}

#[test]
fn callbacks_run_in_registration_order() {
    let log: Log = Rc::default();
    let cts = CancellationTokenSource::new();
    let token = cts.token();
    for n in 1..=4 {
        assert!(token.register(note(&log, n)).is_some());
    }
    assert_eq!(cts.inner().summary(), (false, 0, 4));
    cts.cancel();
    assert_eq!(*log.borrow(), [1, 2, 3, 4]);
    assert_eq!(cts.inner().summary(), (true, 0, 0));
}

/// The key of a released registration is used again; the order is still that of registration.
#[test]
fn reused_key_does_not_change_the_order() {
    let log: Log = Rc::default();
    let cts = CancellationTokenSource::new();
    let token = cts.token();
    let first = token.register(note(&log, 1));
    let second = token.register(note(&log, 2)).unwrap();
    release(&token, first);
    let third = token.register(note(&log, 3)).unwrap();
    let fourth = token.register(note(&log, 4));
    assert_eq!(third.key_value(), 0);
    assert_eq!(second.key_value(), 1);
    release(&token, fourth);
    cts.cancel();
    assert_eq!(*log.borrow(), [2, 3]);
}

#[test]
fn each_callback_runs_once() {
    let log: Log = Rc::default();
    let cts = CancellationTokenSource::new();
    cts.token().register(note(&log, 1));
    cts.cancel();
    cts.cancel();
    cts.clone().cancel();
    assert_eq!(*log.borrow(), [1]);
}

#[test]
fn register_after_cancel_runs_at_once() {
    let log: Log = Rc::default();
    let cts = CancellationTokenSource::new();
    let token = cts.token();
    cts.cancel();
    assert!(token.register(note(&log, 7)).is_none());
    assert_eq!(*log.borrow(), [7]);
    assert_eq!(cts.inner().summary(), (true, 0, 0));
    cts.cancel();
    assert_eq!(*log.borrow(), [7]);
}

#[test]
fn release_before_cancel_removes_the_callback() {
    let log: Log = Rc::default();
    let cts = CancellationTokenSource::new();
    let token = cts.token();
    token.register(note(&log, 1));
    let middle = token.register(note(&log, 2));
    token.register(note(&log, 3));
    assert_eq!(Rc::strong_count(&log), 4);
    release(&token, middle);
    assert_eq!(Rc::strong_count(&log), 3);
    assert_eq!(cts.inner().summary(), (false, 0, 2));
    cts.cancel();
    assert_eq!(*log.borrow(), [1, 3]);
}

#[test]
fn release_after_cancel_does_nothing() {
    let log: Log = Rc::default();
    let cts = CancellationTokenSource::new();
    let token = cts.token();
    let registration = token.register(note(&log, 1));
    cts.cancel();
    release(&token, registration);
    assert!(cts.is_cancelled());
    assert_eq!(*log.borrow(), [1]);
}

#[test]
fn release_without_state_does_nothing() {
    let log: Log = Rc::default();
    let cts = CancellationTokenSource::new();
    let registration = cts.token().register(note(&log, 1)).unwrap();
    registration.release(None);
    assert_eq!(cts.inner().summary(), (false, 0, 1));
    cts.cancel();
    assert_eq!(*log.borrow(), [1]);
}

/// A callback finds the cancellation done, may cancel again, registers callbacks that run at once,
/// and may release registrations.
#[test]
fn callbacks_may_use_the_token() {
    let log: Log = Rc::default();
    let cts = CancellationTokenSource::new();
    let token = cts.token();
    let later: Rc<Cell<Option<CancellationTokenRegistration>>> = Rc::default();
    {
        let (log, cts, token) = (Rc::clone(&log), cts.clone(), token.clone());
        let later = Rc::clone(&later);
        let inner_token = token.clone();
        token.register(move || {
            assert!(inner_token.is_cancelled());
            assert_eq!(inner_token.check_cancelled(), Err(Cancelled));
            cts.cancel();
            assert!(inner_token.register(note(&log, 10)).is_none());
            release(&inner_token, later.take());
            log.borrow_mut().push(11);
        });
    }
    later.set(token.register(note(&log, 12)));
    cts.cancel();
    assert_eq!(*log.borrow(), [10, 11, 12]);
    assert_eq!(cts.inner().summary(), (true, 0, 0));
}

/// Dropping a removed callback may release another registration of the same token.
#[test]
fn dropping_a_callback_may_release() {
    struct Releaser(CancellationToken, Option<CancellationTokenRegistration>);
    impl Drop for Releaser {
        fn drop(&mut self) {
            release(&self.0, self.1.take());
        }
    }
    let log: Log = Rc::default();
    let cts = CancellationTokenSource::new();
    let token = cts.token();
    let inner = token.register(note(&log, 1));
    let releaser = Releaser(token.clone(), inner);
    let outer = token.register(move || {
        let _kept = &releaser;
    });
    assert_eq!(cts.inner().summary(), (false, 0, 2));
    release(&token, outer);
    assert_eq!(cts.inner().summary(), (false, 0, 0));
    cts.cancel();
    assert!(log.borrow().is_empty());
}

#[test]
fn poll_is_pending_then_ready() {
    let cts = CancellationTokenSource::new();
    let mut wait = cts.token().cancelled();
    let (woken, waker) = counter();
    assert_eq!(wait.poll(&waker), Progress::Pending);
    assert_eq!(woken.0.load(Ordering::SeqCst), 0);
    cts.cancel();
    assert_eq!(woken.0.load(Ordering::SeqCst), 1);
    assert_eq!(wait.poll(&waker), Progress::Ready);
    cts.cancel();
    assert_eq!(woken.0.load(Ordering::SeqCst), 1);
}

/// The same task waits once, however often and through whatever wait it polls.
#[test]
fn same_waker_is_kept_once() {
    let cts = CancellationTokenSource::new();
    let token = cts.token();
    let (woken, waker) = counter();
    let mut wait = token.cancelled();
    for _ in 0..3 {
        assert_eq!(wait.poll(&waker), Progress::Pending);
    }
    assert_eq!(token.cancelled().poll(&waker.clone()), Progress::Pending);
    assert_eq!(cts.inner().summary(), (false, 1, 0));
    cts.cancel();
    assert_eq!(woken.0.load(Ordering::SeqCst), 1);
}

#[test]
fn every_waiting_task_is_woken_once() {
    let cts = CancellationTokenSource::new();
    let token = cts.token();
    let tasks: Vec<_> = (0..3).map(|_| counter()).collect();
    for (_, waker) in &tasks {
        assert_eq!(token.cancelled().poll(waker), Progress::Pending);
    }
    assert_eq!(cts.inner().summary(), (false, 3, 0));
    cts.cancel();
    for (woken, _) in &tasks {
        assert_eq!(woken.0.load(Ordering::SeqCst), 1);
    }
    assert_eq!(cts.inner().summary(), (true, 0, 0));
}

fn times(counter: &Arc<Counter>) -> usize {
    counter.0.load(Ordering::SeqCst)
}

/// A future that is polled with the waker of another task waits through that one alone.
#[test]
fn moved_future_is_woken_once() {
    let cts = CancellationTokenSource::new();
    let mut wait = cts.token().cancelled();
    let (one, first) = counter();
    let (two, second) = counter();
    assert!(!first.will_wake(&second));
    assert_eq!(wait.poll(&first), Progress::Pending);
    assert_eq!(wait.poll(&second), Progress::Pending);
    assert_eq!(cts.inner().summary(), (false, 1, 0));
    // The waker that the future has left is gone.
    assert_eq!(Arc::strong_count(&one), 2);
    cts.cancel();
    assert_eq!((times(&one), times(&two)), (0, 1));
    assert_eq!(wait.poll(&second), Progress::Ready);
    assert_eq!((times(&one), times(&two)), (0, 1));
}

/// A waker stays as long as one future waits through it.
#[test]
fn left_waker_stays_for_another_future() {
    let cts = CancellationTokenSource::new();
    let token = cts.token();
    let (one, first) = counter();
    let (two, second) = counter();
    let (mut a, mut b, mut c) = (token.cancelled(), token.cancelled(), token.cancelled());
    assert_eq!(a.poll(&first), Progress::Pending);
    assert_eq!(b.poll(&first), Progress::Pending);
    assert_eq!(c.poll(&second), Progress::Pending);
    assert_eq!(cts.inner().summary(), (false, 2, 0));
    // `a` leaves the first waker to `b`, and joins `c`.
    assert_eq!(a.poll(&second), Progress::Pending);
    assert_eq!(cts.inner().summary(), (false, 2, 0));
    // `c` leaves the second waker to `a`, then the first one, which `b` leaves too.
    assert_eq!(c.poll(&first), Progress::Pending);
    assert_eq!(b.poll(&second), Progress::Pending);
    assert_eq!(cts.inner().summary(), (false, 2, 0));
    assert_eq!(c.poll(&second), Progress::Pending);
    assert_eq!(cts.inner().summary(), (false, 1, 0));
    cts.cancel();
    assert_eq!((times(&one), times(&two)), (0, 1));
    for wait in [&mut a, &mut b, &mut c] {
        assert_eq!(wait.poll(&second), Progress::Ready);
    }
}

/// A future that goes back and forth between two tasks ends with the last.
#[test]
fn future_may_come_back() {
    let cts = CancellationTokenSource::new();
    let mut wait = cts.token().cancelled();
    let (one, first) = counter();
    let (two, second) = counter();
    for waker in [&first, &second, &first, &first, &second, &first] {
        assert_eq!(wait.poll(waker), Progress::Pending);
        assert_eq!(cts.inner().summary(), (false, 1, 0));
    }
    cts.cancel();
    assert_eq!((times(&one), times(&two)), (1, 0));
}

/// Wakers are woken in the order in which they came.
#[test]
fn tasks_are_woken_in_order() {
    struct Noting(Arc<AtomicUsize>, AtomicUsize);
    impl Wake for Noting {
        fn wake(self: Arc<Self>) {
            self.1
                .store(self.0.fetch_add(1, Ordering::SeqCst), Ordering::SeqCst);
        }
    }
    let clock = Arc::new(AtomicUsize::new(1));
    let tasks: Vec<_> = (0..4)
        .map(|_| Arc::new(Noting(Arc::clone(&clock), AtomicUsize::new(0))))
        .collect();
    let cts = CancellationTokenSource::new();
    let token = cts.token();
    for task in &tasks {
        let waker = Waker::from(Arc::clone(task));
        assert_eq!(token.cancelled().poll(&waker), Progress::Pending);
    }
    cts.cancel();
    let order: Vec<_> = tasks.iter().map(|t| t.1.load(Ordering::SeqCst)).collect();
    assert_eq!(order, [1, 2, 3, 4]);
}

/// A poll after the cancellation keeps no waker.
#[test]
fn ready_poll_keeps_no_waker() {
    let cts = CancellationTokenSource::new();
    cts.cancel();
    let (woken, waker) = counter();
    assert_eq!(cts.token().cancelled().poll(&waker), Progress::Ready);
    assert_eq!(cts.inner().summary(), (true, 0, 0));
    drop(waker);
    assert_eq!(Arc::strong_count(&woken), 1);
}

/// Callbacks run before tasks are woken.
#[test]
fn callbacks_run_before_wakers() {
    let cts = CancellationTokenSource::new();
    let token = cts.token();
    let (woken, waker) = counter();
    assert_eq!(token.cancelled().poll(&waker), Progress::Pending);
    let seen = Rc::new(Cell::new(usize::MAX));
    {
        let (seen, woken) = (Rc::clone(&seen), Arc::clone(&woken));
        token.register(move || seen.set(woken.0.load(Ordering::SeqCst)));
    }
    cts.cancel();
    assert_eq!(seen.get(), 0);
    assert_eq!(woken.0.load(Ordering::SeqCst), 1);
}

/// A source keeps working for its tokens after it is dropped.
#[test]
fn token_outlives_its_source() {
    let log: Log = Rc::default();
    let cts = CancellationTokenSource::new();
    let token = cts.token();
    let remote = cts.clone();
    drop(cts);
    token.register(note(&log, 1));
    assert!(!token.is_cancelled());
    remote.cancel();
    drop(remote);
    assert!(token.is_cancelled());
    assert_eq!(*log.borrow(), [1]);
}

#[test]
fn cancelled_says_who_cancelled() {
    assert_eq!(Cancelled.message(), "cancelled by CancellationTokenSource");
    assert_eq!(Cancelled, Cancelled::default());
    assert!(Cancelled <= Cancelled);
}
