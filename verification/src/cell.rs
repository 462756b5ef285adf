use core::cell::Cell;
use vstd::prelude::*;
use vstd::rwlock::{RwLock, RwLockPredicate, WriteHandle};

use crate::event::{step, Event};
use crate::inner::kept::Kept;
use crate::record::{Record, Step};

verus! {

/// What a state that is waited for is known to be: a new one.
pub struct New;

impl RwLockPredicate<Kept> for New {
    open spec fn inv(self, kept: Kept) -> bool {
        kept.log() == Seq::<Event>::empty()
    }
}

/// A cell that holds one state.
///
/// Taking the state out takes the record of the operation along, and only putting a state in gives
/// it back. So an operation takes the state out once, and has to put in what became of that very
/// state, before it can do anything else. Nothing here makes a state.
///
/// What a cell holds is not part of its value, so the contracts speak of the calls on it:
/// `call_ensures` of `Cell::take` and `Cell::set` holds of a state only where that state was taken
/// out or put in.
pub struct StateCell {
    state: Cell<Option<Kept>>,
    /// Who finds the state out of the cell waits here for it. It is out only while an operation
    /// makes its step, in which nothing else runs, so nobody does.
    away: RwLock<Kept, New>,
}

/// An operation that has taken the state out of its cell: its record, and the state that it found.
pub struct Busy {
    record: Record,
    found: Ghost<Kept>,
    cell: Ghost<StateCell>,
}

impl Busy {
    /// The record of the operation.
    pub closed spec fn record(&self) -> Record {
        self.record
    }

    /// The state that the operation has found.
    pub closed spec fn found(&self) -> Kept {
        self.found@
    }

    /// The cell that the state was taken out of.
    pub closed spec fn cell(&self) -> StateCell {
        self.cell@
    }
}

impl StateCell {
    /// The cell that holds the state.
    pub closed spec fn cell(&self) -> Cell<Option<Kept>> {
        self.state
    }

    /// The cell was made with `state` in it.
    pub open spec fn made_with(&self, state: Kept) -> bool {
        call_ensures(Cell::<Option<Kept>>::new, (Some(state),), self.cell())
    }

    /// `found` was out of the cell, and was waited for.
    pub closed spec fn awaited(&self, found: Kept) -> bool {
        exists|held: WriteHandle<Kept, New>| #[trigger]
            call_ensures(RwLock::<Kept, New>::acquire_write, (&self.away,), (found, held))
    }

    /// `found` was taken out of the cell.
    pub open spec fn took(&self, found: Kept) -> bool {
        ||| call_ensures(Cell::<Option<Kept>>::take, (&self.cell(),), Some(found))
        ||| self.awaited(found)
    }

    /// `left` was put into the cell.
    pub open spec fn put_back(&self, left: Kept) -> bool {
        call_ensures(Cell::<Option<Kept>>::set, (&self.cell(), Some(left)), ())
    }

    /// `found` was taken out of the cell and `left` was put into it. Both are what their logs tell,
    /// and at most one event leads from the one to the other.
    pub open spec fn exchanged(&self, found: Kept, left: Kept) -> bool {
        &&& self.took(found) && found.told()
        &&& self.put_back(left) && left.told()
        &&& step(found@, left@)
        &&& exists|event: Option<Event>| #[trigger] found.leads_to(event, left)
    }

    /// A cell that holds the new state `kept`.
    pub(crate) fn new(kept: Kept) -> (cell: Self)
        requires
            kept.log() == Seq::<Event>::empty(),
        ensures
            exists|state: Kept| #[trigger]
                cell.made_with(state) && state.told() && state.log() == Seq::<Event>::empty(),
    {
        let away = RwLock::new(kept, Ghost(New));
        let (kept, _held) = away.acquire_write();
        proof {
            use_type_invariant(&kept);
            kept.lemma_told();
        }
        let ghost first = kept;
        let cell = StateCell { state: Cell::new(Some(kept)), away };
        assert(cell.made_with(first));
        cell
    }

    /// Waits for a state that is out of the cell.
    pub(crate) fn wait(&self) -> (kept: Kept)
        ensures
            self.awaited(kept),
    {
        let (kept, held) = self.away.acquire_write();
        assert(call_ensures(RwLock::<Kept, New>::acquire_write, (&self.away,), (kept, held)));
        kept
    }

    /// Takes the state out of the cell, and the record of the operation along.
    pub(crate) fn take_out(&self, record: Record) -> (taken: (Kept, Busy))
        ensures
            self.took(taken.0),
            taken.0.told(),
            taken.1.record() == record,
            taken.1.found() == taken.0,
            taken.1.cell() == self,
    {
        let kept = match self.state.take() {
            Some(kept) => kept,
            None => self.wait(),
        };
        proof {
            use_type_invariant(&kept);
            kept.lemma_told();
        }
        let busy = Busy { record, found: Ghost(kept), cell: Ghost(*self) };
        (kept, busy)
    }

    /// Puts what became of the state into the cell, and gives the record back, to which this is
    /// added.
    pub(crate) fn put_in(&self, busy: Busy, kept: Kept) -> (record: Record)
        requires
            busy.cell() == self,
            self.took(busy.found()),
            busy.found().told(),
            exists|event: Option<Event>| #[trigger] busy.found().leads_to(event, kept),
        ensures
            self.exchanged(busy.found(), kept),
            record@ == busy.record()@.push(Step::Exchanged(busy.found(), kept)),
    {
        proof {
            use_type_invariant(&kept);
            kept.lemma_told();
        }
        let ghost left = kept;
        let ghost found = busy.found();
        self.state.set(Some(kept));
        proof {
            let event = choose|event: Option<Event>| #[trigger] found.leads_to(event, left);
            found.lemma_step(event, left);
        }
        assert(self.exchanged(found, left));
        let mut record = busy.record;
        record.note(self, Ghost(found), Ghost(left));
        record
    }
}

} // verus!
