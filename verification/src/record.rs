use vstd::prelude::*;

use crate::action::Action;
use crate::cell::StateCell;
use crate::inner::kept::Kept;
use crate::inner::Inner;

verus! {

/// One thing that an operation does.
pub enum Step {
    /// It takes the first state out of the shared cell and puts the second into it.
    Exchanged(Kept, Kept),
    /// It calls a stored callback, or wakes a waiting task.
    Performed(Action),
    /// It calls a closure that was registered after the cancellation.
    RanNow,
}

/// A cancellation asks for the action, and has put the cancelled state back.
pub open spec fn due(action: Action) -> bool {
    exists|inner: Inner, found: Kept, left: Kept|
        #![trigger inner.exchanged(found, left)]
        {
            &&& inner.exchanged(found, left)
            &&& left@ == found@.cancel()
            &&& found@.cancel_actions().contains(action)
        }
}

/// What an operation has done so far, in the order in which it was done.
///
/// An operation gets its record, empty, from `run`. Without one it can neither reach the shared
/// state nor call a callback nor wake a task, and whatever it does of this is added to the record.
pub struct Record {
    steps: Ghost<Seq<Step>>,
}

impl View for Record {
    type V = Seq<Step>;

    closed spec fn view(&self) -> Seq<Step> {
        self.steps@
    }
}

impl Record {
    /// Nothing was done yet.
    fn new() -> (record: Self)
        ensures
            record@ == Seq::<Step>::empty(),
    {
        Record { steps: Ghost(Seq::empty()) }
    }

    /// Adds that `found` was taken out of the cell and `left` put into it.
    pub(crate) fn note(
        &mut self,
        cell: &StateCell,
        Ghost(found): Ghost<Kept>,
        Ghost(left): Ghost<Kept>,
    )
        requires
            cell.exchanged(found, left),
        ensures
            final(self)@ == old(self)@.push(Step::Exchanged(found, left)),
    {
        self.steps = Ghost(self.steps@.push(Step::Exchanged(found, left)));
    }

    /// Performs an action, once the cancelled state `left` is back in its place: calls the
    /// callback, or wakes the task.
    pub(crate) fn perform(&mut self, action: Action, inner: &Inner, Ghost(left): Ghost<Kept>)
        requires
            action.performable(),
            due(action),
            inner.put_back(left),
            left@.cancelled,
        ensures
            action.performed(),
            final(self)@ == old(self)@.push(Step::Performed(action)),
    {
        let ghost performed = action;
        match action {
            Action::Run(callback) => callback.call(inner, Ghost(left)),
            Action::Wake(waker) => waker.wake(),
        }
        self.steps = Ghost(self.steps@.push(Step::Performed(performed)));
    }

    /// Calls a closure that was registered after the cancellation, once the cancelled state `left`
    /// is back in its place.
    pub(crate) fn run_now<F: FnOnce()>(&mut self, f: F, inner: &Inner, Ghost(left): Ghost<Kept>)
        requires
            call_requires(f, ()),
            inner.put_back(left),
            left@.cancelled,
        ensures
            call_ensures(f, (), ()),
            final(self)@ == old(self)@.push(Step::RanNow),
    {
        f();
        self.steps = Ghost(self.steps@.push(Step::RanNow));
    }
}

/// An operation on the shared state.
pub trait Operation: Sized {
    /// What the operation returns.
    type Output;

    /// Whether the operation may be carried out on `inner`.
    spec fn ready(&self, inner: Inner) -> bool;

    /// The operation on `inner` returns `output` and does these steps, in this order, and no
    /// others.
    spec fn does(&self, inner: Inner, output: Self::Output, steps: Seq<Step>) -> bool;

    /// Carries the operation out.
    fn carry_out(self, inner: &Inner, record: Record) -> (result: (Self::Output, Record))
        requires
            self.ready(*inner),
            record@ == Seq::<Step>::empty(),
        ensures
            self.does(*inner, result.0, result.1@),
    ;
}

/// The operation was carried out on `inner` with a record that was empty at first. It has returned
/// `output`, and left these steps on the record.
pub open spec fn recorded<O: Operation>(
    operation: O,
    inner: Inner,
    output: O::Output,
    steps: Seq<Step>,
) -> bool {
    exists|empty: Record, done: Record|
        #![trigger call_ensures(O::carry_out, (operation, &inner, empty), (output, done))]
        {
            &&& call_ensures(O::carry_out, (operation, &inner, empty), (output, done))
            &&& empty@ == Seq::<Step>::empty()
            &&& done@ == steps
        }
}

/// Carries an operation out, with a record that is empty at first.
///
/// Each run has a record of its own. What a record does not show is whether the caller runs a
/// second operation.
pub(crate) fn run<O: Operation>(operation: O, inner: &Inner) -> (output: O::Output)
    requires
        operation.ready(*inner),
    ensures
        exists|steps: Seq<Step>| #[trigger]
            recorded(operation, *inner, output, steps) && operation.does(*inner, output, steps),
{
    let empty = Record::new();
    let ghost first = empty;
    let ghost asked = operation;
    let (output, done) = operation.carry_out(inner, empty);
    assert(call_ensures(O::carry_out, (asked, inner, first), (output, done)));
    assert(recorded(asked, *inner, output, done@));
    output
}

} // verus!
