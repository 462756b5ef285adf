use core::task::Waker;
use vstd::prelude::*;

use crate::cell::StateCell;
use crate::event::Event;
use crate::inner::kept::Kept;
use crate::record::{recorded, run, Operation, Record, Step};
use crate::state::StateView;
use crate::waiting::{known_at, unknown};

pub mod kept;

verus! {

/// The state that a source and its tokens share, in a cell.
///
/// Every operation takes the state out of the cell, lets it make one step, and puts it back
/// before any callback or waker runs, so that these find it in place. The state carries the log of
/// all that has happened to it since it was new: what an operation finds is what all the
/// operations before it have left, and what it leaves is that and its own event.
pub struct Inner {
    cell: StateCell,
}

/// The right to make certain events happen to certain shared states.
pub trait Right {
    /// Whether the right extends to `inner`.
    spec fn covers(&self, inner: Inner) -> bool;

    /// Whether it is a right to make this event happen.
    spec fn allows(&self, event: Event) -> bool;
}

/// No event happens, or one that the right allows.
pub open spec fn rightful<A: Right>(right: A, event: Option<Event>) -> bool {
    event matches Some(event) ==> right.allows(event)
}

impl Inner {
    /// The cell that holds the state.
    pub closed spec fn cell(&self) -> StateCell {
        self.cell
    }

    /// The cell was made with `state` in it.
    pub open spec fn made_with(&self, state: Kept) -> bool {
        self.cell().made_with(state)
    }

    /// `found` was taken out of the cell.
    pub open spec fn took(&self, found: Kept) -> bool {
        self.cell().took(found)
    }

    /// `left` was put into the cell.
    pub open spec fn put_back(&self, left: Kept) -> bool {
        self.cell().put_back(left)
    }

    /// `found` was taken out of the cell and `left` was put into it. Both are what their logs tell,
    /// and at most one event leads from the one to the other.
    pub open spec fn exchanged(&self, found: Kept, left: Kept) -> bool {
        self.cell().exchanged(found, left)
    }

    /// A shared state that is not cancelled, without callbacks and without waiting tasks.
    pub fn new() -> (inner: Self)
        ensures
            exists|state: Kept| #[trigger]
                inner.made_with(state) && state@ == StateView::initial() && state.log()
                    == Seq::<Event>::empty(),
    {
        let cell = StateCell::new(Kept::new());
        let ghost first = choose|state: Kept| #[trigger]
            cell.made_with(state) && state.told() && state.log() == Seq::<Event>::empty();
        let inner = Inner { cell };
        assert(inner.made_with(first));
        inner
    }

    /// Takes the state out of the cell, lets `f` make its step on it, which has to be one that
    /// `right` allows, puts it back, and adds this to the record.
    pub(crate) fn exchange<R, F: FnOnce(Kept) -> (Kept, R), A: Right>(
        &self,
        f: F,
        right: &A,
        record: Record,
    ) -> (result: (R, Record))
        requires
            right.covers(*self),
            forall|found: Kept| found.told() ==> #[trigger] call_requires(f, (found,)),
            forall|found: Kept, after: (Kept, R)| #[trigger]
                call_ensures(f, (found,), after) ==> exists|event: Option<Event>| #[trigger]
                    found.leads_to(event, after.0) && rightful(*right, event),
        ensures
            exists|found: Kept, left: Kept|
                #![trigger self.exchanged(found, left)]
                {
                    &&& self.exchanged(found, left)
                    &&& call_ensures(f, (found,), (left, result.0))
                    &&& result.1@ == record@.push(Step::Exchanged(found, left))
                },
    {
        let (kept, busy) = self.cell.take_out(record);
        let ghost found = kept;
        let (kept, result) = f(kept);
        let ghost left = kept;
        assert(call_ensures(f, (found,), (left, result)));
        assert(exists|event: Option<Event>| #[trigger]
            found.leads_to(event, left) && rightful(*right, event));
        let record = self.cell.put_in(busy, kept);
        assert(self.exchanged(found, left));
        (result, record)
    }

    /// Waits for a state that is out of the cell.
    pub(crate) fn wait(&self) -> (kept: Kept) {
        self.cell.wait()
    }

    /// Whether the cancellation has happened or a waker is kept that is said to wake the task of
    /// `waker`.
    pub(crate) fn knows(&self, waker: &Waker) -> (known: bool)
        ensures
            exists|found: Kept| #[trigger]
                self.exchanged(found, found) && recorded(
                    Ask { waker },
                    *self,
                    known,
                    seq![Step::Exchanged(found, found)],
                ) && answers(found@, *waker, known),
    {
        let ask = Ask { waker };
        let known = run(ask, self);
        proof {
            let steps = choose|steps: Seq<Step>| #[trigger]
                recorded(ask, *self, known, steps) && ask.does(*self, known, steps);
            let found = choose|found: Kept| #[trigger]
                self.exchanged(found, found) && answers(found@, *waker, known) && steps == seq![Step::Exchanged(found, found)];
            assert(self.exchanged(found, found));
        }
        known
    }

    /// The shared state was looked at and was `found`, which these fields show: it was taken out of
    /// the cell and put back, and nothing else was done.
    pub open spec fn looked(&self, found: Kept, fields: (bool, usize, usize)) -> bool {
        &&& self.exchanged(found, found)
        &&& recorded(Look, *self, fields, seq![Step::Exchanged(found, found)])
        &&& shows(found@, fields)
    }

    /// Whether the cancellation has happened, the number of wakers and the number of stored
    /// callbacks.
    pub fn summary(&self) -> (fields: (bool, usize, usize))
        ensures
            exists|found: Kept| #[trigger] self.looked(found, fields),
    {
        let fields = run(Look, self);
        proof {
            let steps = choose|steps: Seq<Step>| #[trigger]
                recorded(Look, *self, fields, steps) && Look.does(*self, fields, steps);
            let found = choose|found: Kept| #[trigger]
                self.exchanged(found, found) && shows(found@, fields) && steps == seq![
                    Step::Exchanged(found, found),
                ];
            assert(self.looked(found, fields));
        }
        fields
    }
}

/// The fields tell whether the cancellation has happened, the number of wakers and the number of
/// stored callbacks.
pub open spec fn shows(state: StateView, fields: (bool, usize, usize)) -> bool {
    &&& fields.0 == state.cancelled
    &&& fields.1 == state.waiting.len()
    &&& fields.2 == state.callbacks.len()
}

/// The operation that looks at the shared state and changes nothing.
pub struct Look;

impl Right for Look {
    open spec fn covers(&self, inner: Inner) -> bool {
        true
    }

    open spec fn allows(&self, event: Event) -> bool {
        false
    }
}

impl Operation for Look {
    type Output = (bool, usize, usize);

    open spec fn ready(&self, inner: Inner) -> bool {
        true
    }

    /// One exchange, which puts back what it found.
    open spec fn does(
        &self,
        inner: Inner,
        output: (bool, usize, usize),
        steps: Seq<Step>,
    ) -> bool {
        exists|found: Kept| #[trigger]
            inner.exchanged(found, found) && shows(found@, output) && steps == seq![
                Step::Exchanged(found, found),
            ]
    }

    fn carry_out(self, inner: &Inner, record: Record) -> (result: ((bool, usize, usize), Record)) {
        let look = |kept: Kept| -> (after: (Kept, (bool, usize, usize)))
            ensures
                after.0 == kept,
                kept.leads_to(None, after.0),
                shows(kept@, after.1)
        {
            let fields = kept.summary();
            (kept, fields)
        };
        let (fields, record) = inner.exchange(look, &self, record);
        proof {
            let (found, left) = choose|found: Kept, left: Kept|
                #![trigger inner.exchanged(found, left)]
                {
                    &&& inner.exchanged(found, left)
                    &&& call_ensures(look, (found,), (left, fields))
                    &&& record@ == Seq::<Step>::empty().push(Step::Exchanged(found, left))
                };
            assert(inner.exchanged(found, found));
            assert(record@ =~= seq![Step::Exchanged(found, found)]);
        }
        (fields, record)
    }
}

/// The answer to whether the cancellation has happened or a waker is kept that is said to wake the
/// task of `waker`.
pub open spec fn answers(state: StateView, waker: Waker, known: bool) -> bool {
    &&& known ==> state.cancelled || exists|place: int| #[trigger]
        known_at(state.waiting, waker, place)
    &&& !known ==> !state.cancelled && unknown(state.waiting, waker)
}

/// The operation that asks whether a waker has to be cloned, and changes nothing.
pub struct Ask<'a> {
    pub waker: &'a Waker,
}

impl<'a> Operation for Ask<'a> {
    type Output = bool;

    open spec fn ready(&self, inner: Inner) -> bool {
        true
    }

    /// One exchange, which puts back what it found.
    open spec fn does(&self, inner: Inner, output: bool, steps: Seq<Step>) -> bool {
        exists|found: Kept| #[trigger]
            inner.exchanged(found, found) && answers(found@, *self.waker, output) && steps == seq![Step::Exchanged(found, found)]
    }

    fn carry_out(self, inner: &Inner, record: Record) -> (result: (bool, Record)) {
        let waker = self.waker;
        let ghost asked = *waker;
        let look = |kept: Kept| -> (after: (Kept, bool))
            ensures
                after.0 == kept,
                kept.leads_to(None, after.0),
                answers(kept@, asked, after.1)
        {
            let known = kept.knows(waker);
            (kept, known)
        };
        let (known, record) = inner.exchange(look, &Look, record);
        proof {
            let (found, left) = choose|found: Kept, left: Kept|
                #![trigger inner.exchanged(found, left)]
                {
                    &&& inner.exchanged(found, left)
                    &&& call_ensures(look, (found,), (left, known))
                    &&& record@ == Seq::<Step>::empty().push(Step::Exchanged(found, left))
                };
            assert(inner.exchanged(found, found));
            assert(record@ =~= seq![Step::Exchanged(found, found)]);
        }
        (known, record)
    }
}

} // verus!
