use std::cell::RefCell;
use std::rc::Rc;
use std::sync::Arc;
use std::task::{Wake, Waker};

use async_cancellation_token::action::Action;
use async_cancellation_token::callback::Callback;
use async_cancellation_token::callbacks::{Callbacks, Key};
use async_cancellation_token::state::{Polled, Registered, State};
use async_cancellation_token::waiting::Waiting;

type Log = Rc<RefCell<Vec<u32>>>;

fn note(log: &Log, n: u32) -> impl FnOnce() + 'static {
    let log = Rc::clone(log);
    move || log.borrow_mut().push(n)
}

fn stored<F>(registered: Registered<F>) -> Key {
    match registered {
        Registered::Stored(key) => key,
        Registered::RunNow(_) => panic!("the callback was not stored"),
    }
}

struct Quiet;

impl Wake for Quiet {
    fn wake(self: Arc<Self>) {}
}

fn waker() -> Waker {
    Waker::from(Arc::new(Quiet))
}

#[test]
fn callbacks_keep_keys_and_order() {
    let log: Log = Rc::default();
    let mut callbacks = Callbacks::new();
    assert_eq!(callbacks.len(), 0);
    let a = callbacks.insert(Callback::new(note(&log, 1)));
    let b = callbacks.insert(Callback::new(note(&log, 2)));
    let c = callbacks.insert(Callback::new(note(&log, 3)));
    assert_eq!((a.value(), b.value(), c.value()), (0, 1, 2));
    assert!(callbacks.contains(&b));
    let number = b.value();
    drop(callbacks.remove(b));
    assert_eq!(Rc::strong_count(&log), 3);
    assert!(callbacks.contains(&c));
    assert_eq!(callbacks.len(), 2);
    let d = callbacks.insert(Callback::new(note(&log, 4)));
    assert_eq!(d.value(), number);
    drop(callbacks.remove(a));
    assert_eq!(callbacks.drain().len(), 2);
    assert_eq!(callbacks.len(), 0);
    assert!(!callbacks.contains(&c));
    let e = callbacks.insert(Callback::new(note(&log, 5)));
    assert!(callbacks.contains(&e));
    assert_eq!(callbacks.drain().len(), 1);
    assert!(log.borrow().is_empty());
}

/// A callback holds its closure until it is dropped.
#[test]
fn callback_holds_its_closure() {
    let log: Log = Rc::default();
    let callback = Callback::new(note(&log, 1));
    assert_eq!(Rc::strong_count(&log), 2);
    drop(callback);
    assert_eq!(Rc::strong_count(&log), 1);
    assert!(log.borrow().is_empty());
}

#[test]
fn wakers_keep_keys_and_counts() {
    let mut waiting = Waiting::new();
    let (one, two) = (waker(), waker());
    assert_eq!(waiting.find(&one), None);
    let a = waiting.watch(one.clone());
    let b = waiting.watch(two.clone());
    assert_eq!((a, b), (0, 1));
    assert_eq!(waiting.find(&one), Some(a));
    assert_eq!(waiting.find(&two), Some(b));
    waiting.join(a);
    assert!(waiting.leave(None).is_none());
    assert!(waiting.leave(Some(7)).is_none());
    assert!(waiting.leave(Some(a)).is_none());
    assert_eq!(waiting.len(), 2);
    assert!(waiting.leave(Some(a)).unwrap().will_wake(&one));
    assert_eq!(waiting.find(&one), None);
    assert_eq!(waiting.len(), 1);
    assert_eq!(waiting.watch(one.clone()), a);
    let wakers = waiting.drain();
    assert_eq!(wakers.len(), 2);
    assert!(wakers[0].will_wake(&two));
    assert!(wakers[1].will_wake(&one));
    assert_eq!(waiting.len(), 0);
}

#[test]
fn cancel_asks_for_callbacks_then_wakers() {
    let log: Log = Rc::default();
    let state = State::new();
    let (w, other) = (waker(), waker());
    let (state, polled, _) = state.poll(None, &w, Some(w.clone()));
    assert!(matches!(polled, Polled::Pending(0)));
    let (state, polled, _) = state.poll(None, &other, Some(other.clone()));
    assert!(matches!(polled, Polled::Pending(1)));
    let (state, _) = state.register(note(&log, 1));
    let (state, _) = state.register(note(&log, 2));
    assert_eq!(state.summary(), (false, 2, 2));
    let (state, actions) = state.cancel();
    assert!(state.is_cancelled());
    assert_eq!(state.summary(), (true, 0, 0));
    match actions.as_slice() {
        [Action::Run(_), Action::Run(_), Action::Wake(first), Action::Wake(second)] => {
            assert!(first.will_wake(&w));
            assert!(second.will_wake(&other));
        }
        _ => panic!("other actions"),
    }
    assert!(log.borrow().is_empty());
    let (state, actions) = state.cancel();
    assert!(actions.is_empty());
    assert!(state.is_cancelled());
}

#[test]
fn release_undoes_register() {
    let log: Log = Rc::default();
    let (state, kept) = State::new().register(note(&log, 1));
    let kept = stored(kept);
    let (state, registered) = state.register(note(&log, 2));
    let key = stored(registered);
    assert!(state.holds(&key));
    let (state, callback) = state.release(key);
    assert!(callback.is_some());
    assert_eq!(state.summary(), (false, 0, 1));
    assert!(state.holds(&kept));
    let (state, actions) = state.cancel();
    assert_eq!(actions.len(), 1);
    let (state, callback) = state.release(kept);
    assert!(callback.is_none());
    assert!(state.is_cancelled());
    assert!(log.borrow().is_empty());
}

#[test]
fn cancelled_state_stores_nothing() {
    let log: Log = Rc::default();
    let (state, _) = State::new().cancel();
    let (state, registered) = state.register(note(&log, 3));
    match registered {
        Registered::RunNow(callback) => callback(),
        Registered::Stored(_) => panic!("the callback was stored"),
    }
    assert_eq!(*log.borrow(), [3]);
    let w = waker();
    let (state, polled, (gone, unused)) = state.poll(Some(0), &w, Some(w.clone()));
    assert!(matches!(polled, Polled::Ready));
    assert!(gone.is_none());
    assert!(unused.is_some());
    assert_eq!(state.summary(), (true, 0, 0));
}

/// A clone is asked for only where it is to be kept, and handed back where it is not.
#[test]
fn known_task_is_not_added() {
    let state = State::new();
    let w = waker();
    let (state, polled, _) = state.poll(None, &w, None);
    assert!(matches!(polled, Polled::CloneFirst));
    assert_eq!(state.summary(), (false, 0, 0));
    let (state, polled, (gone, unused)) = state.poll(None, &w, Some(w.clone()));
    assert!(matches!(polled, Polled::Pending(0)));
    assert!(gone.is_none() && unused.is_none());
    let (state, polled, _) = state.poll(Some(0), &w, None);
    assert!(matches!(polled, Polled::Pending(0)));
    let (state, polled, (gone, unused)) = state.poll(None, &w, Some(w.clone()));
    assert!(matches!(polled, Polled::Pending(0)));
    assert!(gone.is_none() && unused.is_some());
    assert_eq!(state.summary(), (false, 1, 0));
    let other = waker();
    let (state, polled, (gone, _)) = state.poll(Some(0), &other, Some(other.clone()));
    assert!(matches!(polled, Polled::Pending(1)));
    assert!(gone.is_none());
    assert_eq!(state.summary(), (false, 2, 0));
    let (state, polled, (gone, _)) = state.poll(Some(0), &other, None);
    assert!(matches!(polled, Polled::Pending(1)));
    assert!(gone.unwrap().will_wake(&w));
    assert_eq!(state.summary(), (false, 1, 0));
    let default: State = State::default();
    assert_eq!(default.summary(), (false, 0, 0));
}
