use vstd::prelude::*;

use crate::action::Action;
use crate::inner::kept::Kept;
use crate::inner::Inner;
use crate::record::due;

verus! {

/// Something that can be run once.
trait Run {
    /// Whether it may be run: a closure may ask for something of its caller.
    spec fn callable(&self) -> bool;

    /// It was run, and has returned.
    spec fn called(&self) -> bool;

    fn run(self: Box<Self>)
        requires
            self.callable(),
        ensures
            self.called(),
    ;
}

/// A closure that runs once.
struct Closure<F> {
    f: F,
}

impl<F: FnOnce()> Run for Closure<F> {
    spec fn callable(&self) -> bool {
        call_requires(self.f, ())
    }

    spec fn called(&self) -> bool {
        call_ensures(self.f, (), ())
    }

    fn run(self: Box<Self>) {
        let closure = *self;
        (closure.f)();
    }
}

/// A one-time callback: a closure of any type, on the heap.
pub struct Callback {
    run: Box<dyn Run>,
}

impl Callback {
    /// Whether the closure may be called.
    pub closed spec fn callable(&self) -> bool {
        self.run.callable()
    }

    /// The closure was called, and has returned.
    pub closed spec fn called(&self) -> bool {
        self.run.called()
    }

    /// The callback holds the closure `f`: the one is called when the other is.
    pub open spec fn holds<F: FnOnce()>(&self, f: F) -> bool {
        &&& self.callable() <==> call_requires(f, ())
        &&& self.called() <==> call_ensures(f, (), ())
    }

    /// Puts a closure on the heap.
    pub fn new<F: FnOnce() + 'static>(f: F) -> (callback: Callback)
        ensures
            callback.holds(f),
    {
        let closure = Closure { f };
        let ghost held = closure;
        let callback = Callback { run: Box::new(closure) };
        assert(callback.run.callable() == held.callable());
        assert(callback.run.called() == held.called());
        callback
    }

    /// Calls the closure, which a cancellation asks for, once the cancelled state `left` is back in its place.
    pub(crate) fn call(self, inner: &Inner, Ghost(left): Ghost<Kept>)
        requires
            self.callable(),
            due(Action::Run(self)),
            inner.put_back(left),
            left@.cancelled,
        ensures
            self.called(),
    {
        self.run.run();
    }
}

} // verus!
