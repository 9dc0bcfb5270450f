//! A one-shot promise, verified as a plain state machine.
//!
//! A promise carries one value from a producer to a consumer. The consumer
//! polls it: either the value is already there and is taken, or the consumer
//! must register itself as the waiter and suspend. The producer resolves it
//! with a value and learns whether a registered waiter must be woken.
//!
//! The state here is the data that, in a concurrent setting, sits behind a
//! shared lock, with the waiter reduced to its presence. The surrounding
//! executor owns the lock and the concrete waker handles; it performs each
//! step under the lock and then carries out the step's instruction (suspend,
//! or wake the waiter).

use vstd::prelude::*;

verus! {

/// The one-shot promise state shared by the consumer and the producer.
#[derive(Debug)]
pub struct Promise<T> {
    done: bool,
    val: Option<T>,
    has_waiter: bool,
}

/// What one poll step asks of the surrounding executor: hand the resolved
/// value to the consumer, or register the consumer's waker and suspend.
#[derive(Debug)]
pub enum PollStep<T> {
    Ready(T),
    RegisterWaiter,
}

/// The producer half: the right to resolve the promise it was created with.
#[derive(Debug)]
pub struct PromiseResolver<T> {
    marker: core::marker::PhantomData<T>,
}

impl<T> Clone for PromiseResolver<T> {
    fn clone(&self) -> Self {
        PromiseResolver { marker: core::marker::PhantomData }
    }
}

impl<T> Promise<T> {
    /// Whether the promise has been marked completed.
    pub closed spec fn is_done(&self) -> bool {
        self.done
    }

    /// The value currently held, if any.
    pub closed spec fn value(&self) -> Option<T> {
        self.val
    }

    /// Whether a consumer is registered as the waiter.
    pub closed spec fn has_registered_waiter(&self) -> bool {
        self.has_waiter
    }

    /// Creates a pending promise and the resolver tied to it.
    pub fn new() -> (r: (Promise<T>, PromiseResolver<T>))
        ensures
            !r.0.is_done(),
            r.0.value() is None,
            !r.0.has_registered_waiter(),
    {
        (
            Promise { done: false, val: Option::None, has_waiter: false },
            PromiseResolver { marker: core::marker::PhantomData },
        )
    }

    /// One poll step. A held value is taken and handed to the consumer;
    /// otherwise the consumer is told to register as the waiter. Polling a
    /// promise already marked completed is a caller bug and is ruled out.
    pub fn poll(&mut self) -> (r: PollStep<T>)
        requires
            !old(self).is_done(),
        ensures
            final(self).is_done() == old(self).is_done(),
            final(self).value() is None,
            match old(self).value() {
                Option::Some(v) => r == PollStep::Ready(v) && final(self).has_registered_waiter()
                    == old(self).has_registered_waiter(),
                Option::None => r == PollStep::<T>::RegisterWaiter
                    && final(self).has_registered_waiter(),
            },
    {
        match self.val.take() {
            Option::Some(v) => PollStep::Ready(v),
            Option::None => {
                self.has_waiter = true;
                PollStep::RegisterWaiter
            },
        }
    }
}

impl<T> PromiseResolver<T> {
    /// Resolves the promise with `value` and clears the waiter registration;
    /// returns whether a registered waiter must now be woken.
    pub fn resolve(&self, promise: &mut Promise<T>, value: T) -> (wake: bool)
        ensures
            final(promise).value() == Option::Some(value),
            !final(promise).has_registered_waiter(),
            final(promise).is_done() == old(promise).is_done(),
            wake == old(promise).has_registered_waiter(),
    {
        promise.val = Option::Some(value);
        let wake = promise.has_waiter;
        promise.has_waiter = false;
        wake
    }
}

} // verus!
