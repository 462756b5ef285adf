use vstd::prelude::*;

use crate::action::Action;
use crate::event::Event;
use crate::inner::kept::Kept;
use crate::inner::{rightful, Inner};
use crate::layers::query_all;
use crate::record::{due, recorded, run, Operation, Record, Step};
use crate::source::CancellationTokenSource;

verus! {

/// The operation that cancels. Only this module can make one, and only of a source, which keeps
/// the shared state alive until all is done.
pub struct Cancel {
    source: CancellationTokenSource,
}

impl Cancel {
    /// The state that the source shares with its tokens.
    pub closed spec fn shared(&self) -> Inner {
        *self.source.shared()
    }
}

/// The steps that perform the actions, from the first to the last.
pub open spec fn performances(actions: Seq<Action>) -> Seq<Step> {
    Seq::new(actions.len(), |i: int| Step::Performed(actions[i]))
}

/// The steps of a cancellation that finds one state and leaves another: the exchange of the
/// states, and then everything that the cancellation asks for, in this order.
pub open spec fn cancel_steps(found: Kept, left: Kept) -> Seq<Step> {
    seq![Step::Exchanged(found, left)] + performances(found@.cancel_actions())
}

/// Cancelling in `inner` finds one state and leaves another, and what it asks for is done.
pub open spec fn cancels(inner: Inner, found: Kept, left: Kept) -> bool {
    &&& inner.exchanged(found, left)
    &&& left@ == found@.cancel()
    &&& found.leads_to(Some(Event::Cancel), left)
    &&& forall|i: int|
        0 <= i < found@.cancel_actions().len() ==> (
        #[trigger] found@.cancel_actions()[i]).performed()
}

impl Operation for Cancel {
    type Output = ();

    open spec fn ready(&self, inner: Inner) -> bool {
        self.shared() == inner
    }

    open spec fn does(&self, inner: Inner, output: (), steps: Seq<Step>) -> bool {
        exists|found: Kept, left: Kept| #[trigger]
            cancels(inner, found, left) && steps == cancel_steps(found, left)
    }

    fn carry_out(self, inner: &Inner, record: Record) -> (result: ((), Record)) {
        let source = self.source;
        let cancel = |kept: Kept| -> (after: (Kept, Vec<Action>))
            ensures
                kept.leads_to(Some(Event::Cancel), after.0),
                rightful(source, Some(Event::Cancel)),
                after.0@ == kept@.cancel(),
                after.1@ == kept@.cancel_actions(),
                forall|i: int| 0 <= i < after.1@.len() ==> (#[trigger] after.1@[i]).performable()
        {
            kept.cancel()
        };
        let (actions, record) = inner.exchange(cancel, &source, record);
        let mut record = record;
        let ghost (found, left) = choose|found: Kept, left: Kept|
            #![trigger inner.exchanged(found, left)]
            {
                &&& inner.exchanged(found, left)
                &&& call_ensures(cancel, (found,), (left, actions))
                &&& record@ == Seq::<Step>::empty().push(Step::Exchanged(found, left))
            };
        assert forall|i: int| 0 <= i < actions@.len() implies due(#[trigger] actions@[i]) by {
            assert(inner.exchanged(found, left));
            assert(found@.cancel_actions()[i] == actions@[i]);
        }
        perform_all(actions, inner, Ghost(left), &mut record);
        proof {
            assert(cancels(*inner, found, left));
            assert(record@ =~= cancel_steps(found, left));
        }
        ((), record)
    }
}

/// Performs the actions from the first to the last, once the cancelled state `left` is back in its
/// place.
fn perform_all(actions: Vec<Action>, inner: &Inner, Ghost(left): Ghost<Kept>, record: &mut Record)
    requires
        forall|i: int| 0 <= i < actions@.len() ==> (#[trigger] actions@[i]).performable(),
        forall|i: int| 0 <= i < actions@.len() ==> due(#[trigger] actions@[i]),
        inner.put_back(left),
        left@.cancelled,
    ensures
        final(record)@ == old(record)@ + performances(actions@),
        forall|i: int| 0 <= i < actions@.len() ==> (#[trigger] actions@[i]).performed(),
{
    let ghost all = actions@;
    let ghost before = record@;
    assert(before + performances(all.take(0)) =~= before);
    for action in it: actions
        invariant
            it.seq() == all,
            forall|i: int| 0 <= i < all.len() ==> (#[trigger] all[i]).performable(),
            forall|i: int| 0 <= i < all.len() ==> due(#[trigger] all[i]),
            forall|i: int| 0 <= i < it.index() ==> (#[trigger] all[i]).performed(),
            record@ == before + performances(all.take(it.index() as int)),
            inner.put_back(left),
            left@.cancelled,
    {
        assert(action == all[it.index() as int]);
        record.perform(action, inner, Ghost(left));
        assert(record@ =~= before + performances(all.take(it.index() + 1)));
    }
    assert(all.take(all.len() as int) =~= all);
}

impl CancellationTokenSource {
    /// Cancels all associated tokens.
    ///
    /// If they are not cancelled yet, every registered callback is called, in registration order,
    /// and then every waiting task is woken, in the order in which they came. A later call has no
    /// effect.
    pub fn cancel(&self)
        ensures
            exists|found: Kept, left: Kept, operation: Cancel|
                #![trigger recorded(operation, *self.shared(), (), cancel_steps(found, left))]
                {
                    &&& recorded(operation, *self.shared(), (), cancel_steps(found, left))
                    &&& cancels(*self.shared(), found, left)
                },
    {
        query_all(None, None, None);
        let operation = Cancel { source: self.clone() };
        let ghost made = operation;
        run(operation, self.inner());
        proof {
            let steps = choose|steps: Seq<Step>| #[trigger]
                recorded(made, *self.shared(), (), steps) && made.does(*self.shared(), (), steps);
            let (found, left) = choose|found: Kept, left: Kept| #[trigger]
                cancels(*self.shared(), found, left) && steps == cancel_steps(found, left);
            assert(recorded(made, *self.shared(), (), cancel_steps(found, left)));
        }
    }
}

} // verus!
