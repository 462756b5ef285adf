use core::cell::Cell;
use core::task::Waker;
use vstd::prelude::*;

use crate::action::Action;
use crate::record::due;

verus! {

/// A cell of the standard library: its contents change through a shared reference.
#[verifier::external_type_specification]
#[verifier::external_body]
#[verifier::reject_recursive_types(T)]
pub struct ExCell<T: ?Sized>(core::cell::Cell<T>);

/// `Cell::new`: a cell that holds the value. Nothing is claimed of what the cell holds later.
pub assume_specification<T>[ Cell::<T>::new ](value: T) -> (cell: Cell<T>);

/// `Cell::take`: takes what the cell holds and leaves the default value in it. What that is
/// depends on everything done to the cell before, so nothing is claimed of it.
pub assume_specification<T: Default>[ Cell::<T>::take ](cell: &Cell<T>) -> (value: T)
    where
        T: Default,
;

/// `Cell::set`: puts the value into the cell. Nothing is claimed of what the cell holds later.
pub assume_specification<T>[ Cell::<T>::set ](cell: &Cell<T>, value: T);

/// A handle of the standard library that wakes one task of an executor.
#[verifier::external_type_specification]
#[verifier::external_body]
pub struct ExWaker(core::task::Waker);

/// `Waker::will_wake`: whether both wake the same task, answered on a best-effort basis, so
/// nothing is claimed of the answer.
pub assume_specification[ Waker::will_wake ](waker: &Waker, other: &Waker) -> (same: bool);

/// `Waker::clone`: another handle of the same task. Nothing is claimed of it.
pub assume_specification[ <Waker as Clone>::clone ](waker: &Waker) -> (copy: Waker);

/// `Waker::wake`: wakes the task. Nothing is claimed of what the executor does then. The call is
/// left to wakers that a cancellation asks to wake.
pub assume_specification[ Waker::wake ](waker: Waker)
    requires
        due(Action::Wake(waker)),
;

} // verus!
