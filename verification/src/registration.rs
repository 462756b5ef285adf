use vstd::prelude::*;

use crate::callback::Callback;
use crate::event::Event;
use crate::inner::kept::{Answer, Claim, Kept};
use crate::inner::Inner;
use crate::layers::query_all;
use crate::record::{recorded, run, Operation, Record, Step};
use crate::token::CancellationToken;

verus! {

/// Represents a registered callback on a `CancellationToken`.
///
/// Releasing it **before the token is cancelled** removes the callback. Releasing it afterwards
/// does nothing.
///
/// It knows the shared state that the callback is stored in only in its contract, and does not
/// keep that state alive.
pub struct CancellationTokenRegistration {
    claim: Claim,
}

impl CancellationTokenRegistration {
    /// The key that the callback is stored under.
    pub closed spec fn key(&self) -> usize {
        self.claim.number()
    }

    /// The shared state that the callback is stored in.
    pub closed spec fn shared(&self) -> Inner {
        self.claim.shared()
    }

    /// The key that the callback is stored under.
    pub fn key_value(&self) -> (key: usize)
        ensures
            key == self.key(),
    {
        self.claim.value()
    }

    /// The right to the callback.
    pub(crate) fn into_key(self) -> (claim: Claim)
        ensures
            claim.number() == self.key(),
            claim.shared() == self.shared(),
    {
        self.claim
    }
}

/// The operation that registers a callback. Only this module can make one, and only of a token.
pub struct Register<F> {
    token: CancellationToken,
    f: F,
}

impl<F> Register<F> {
    /// The closure that is registered.
    pub closed spec fn closure(&self) -> F {
        self.f
    }

    /// The state that the token shares with its source.
    pub closed spec fn shared(&self) -> Inner {
        *self.token.shared()
    }
}

/// Registering the closure `f` in `inner` finds one state, leaves another, and gives this
/// registration: none if the token is cancelled, and the closure is called then.
pub open spec fn registers<F: FnOnce()>(
    inner: Inner,
    f: F,
    registration: Option<CancellationTokenRegistration>,
    found: Kept,
    left: Kept,
) -> bool {
    &&& inner.exchanged(found, left)
    &&& found@.cancelled ==> {
        &&& registration is None
        &&& found.leads_to(None, left)
        &&& call_ensures(f, (), ())
    }
    &&& !found@.cancelled ==> {
        &&& registration matches Some(registration)
        &&& registration.shared() == inner
        &&& found@.registered(registration.key(), f, left@)
        &&& exists|callback: Callback| #[trigger]
            callback.holds(f) && found.leads_to(
                Some(Event::Register(registration.key(), callback)),
                left,
            )
    }
}

/// The steps of a registration that finds one state and leaves another: the exchange of the states
/// and, only if the token is cancelled, then the call of the closure.
pub open spec fn register_steps(found: Kept, left: Kept) -> Seq<Step> {
    if found@.cancelled {
        seq![Step::Exchanged(found, left), Step::RanNow]
    } else {
        seq![Step::Exchanged(found, left)]
    }
}

impl<F: FnOnce() + 'static> Operation for Register<F> {
    type Output = Option<CancellationTokenRegistration>;

    open spec fn ready(&self, inner: Inner) -> bool {
        call_requires(self.closure(), ()) && self.shared() == inner
    }

    open spec fn does(
        &self,
        inner: Inner,
        output: Option<CancellationTokenRegistration>,
        steps: Seq<Step>,
    ) -> bool {
        exists|found: Kept, left: Kept| #[trigger]
            registers(inner, self.closure(), output, found, left) && steps == register_steps(
                found,
                left,
            )
    }

    fn carry_out(self, inner: &Inner, record: Record) -> (result: (
        Option<CancellationTokenRegistration>,
        Record,
    )) {
        let Register { token, f } = self;
        let ghost closure = f;
        let ghost place = *inner;
        let register = |kept: Kept| -> (after: (Kept, Answer<F>))
            ensures
                kept@.cancelled ==> kept.leads_to(None, after.0) && after.1 == Answer::RunNow(
                    closure,
                ),
                !kept@.cancelled ==> {
                    &&& after.1 matches Answer::Stored(claim)
                    &&& claim.shared() == place
                    &&& kept@.registered(claim.number(), closure, after.0@)
                    &&& exists|callback: Callback| #[trigger]
                        callback.holds(closure) && kept.leads_to(
                            Some(Event::Register(claim.number(), callback)),
                            after.0,
                        )
                }
        {
            kept.register(f, Ghost(place))
        };
        let (registered, record) = inner.exchange(register, &token, record);
        let mut record = record;
        let ghost (found, left) = choose|found: Kept, left: Kept|
            #![trigger inner.exchanged(found, left)]
            {
                &&& inner.exchanged(found, left)
                &&& call_ensures(register, (found,), (left, registered))
                &&& record@ == Seq::<Step>::empty().push(Step::Exchanged(found, left))
            };
        let registration = match registered {
            Answer::Stored(claim) => Some(
                CancellationTokenRegistration { claim },
            ),
            Answer::RunNow(f) => {
                record.run_now(f, inner, Ghost(left));
                None
            },
        };
        proof {
            assert(registers(*inner, closure, registration, found, left));
            assert(record@ =~= register_steps(found, left));
        }
        (registration, record)
    }
}

impl CancellationToken {
    /// Registers a callback to run when the token is cancelled.
    ///
    /// - If the token is **already cancelled**, the callback is called immediately.
    /// - Otherwise, the callback is stored and will be called exactly once upon cancellation.
    ///
    /// Returns a `CancellationTokenRegistration`, which removes the callback if it is released
    /// before cancellation.
    pub fn register<F: FnOnce() + 'static>(&self, f: F) -> (registration: Option<
        CancellationTokenRegistration,
    >)
        requires
            call_requires(f, ()),
        ensures
            exists|found: Kept, left: Kept, operation: Register<F>|
                #![trigger
                    recorded(operation, *self.shared(), registration, register_steps(found, left))
                ]
                {
                    &&& recorded(
                        operation,
                        *self.shared(),
                        registration,
                        register_steps(found, left),
                    )
                    &&& operation.closure() == f
                    &&& registers(*self.shared(), f, registration, found, left)
                },
    {
        query_all(None, None, None);
        let operation = Register { token: self.clone(), f };
        let ghost made = operation;
        let registration = run(operation, self.inner());
        proof {
            let inner = *self.shared();
            let steps = choose|steps: Seq<Step>| #[trigger]
                recorded(made, inner, registration, steps) && made.does(inner, registration, steps);
            let (found, left) = choose|found: Kept, left: Kept| #[trigger]
                registers(inner, made.closure(), registration, found, left) && steps
                    == register_steps(found, left);
            assert(recorded(made, inner, registration, register_steps(found, left)));
        }
        registration
    }
}

} // verus!
