//! The state kept while values are handed one by one to a callback that may
//! stop the iteration early or fail.
use std::ops::ControlFlow;
use vstd::prelude::*;

verus! {

/// Whether a call lets the iteration go on.
pub open spec fn continues<O, P>(call: Result<ControlFlow<O>, P>) -> bool {
    call matches Ok(ControlFlow::Continue(()))
}

/// The outcome after one more call: unchanged when the call continues, else
/// the call's break or failure.
pub open spec fn after_call<O, P>(outcome: Result<ControlFlow<O>, P>, call: Result<ControlFlow<O>, P>) -> Result<ControlFlow<O>, P> {
    if continues(call) {
        outcome
    } else {
        call
    }
}

/// The outcome after the calls `calls`, one after another.
pub open spec fn after_calls<O, P>(outcome: Result<ControlFlow<O>, P>, calls: Seq<Result<ControlFlow<O>, P>>) -> Result<
    ControlFlow<O>,
    P,
>
    decreases calls.len(),
{
    if calls.len() == 0 {
        outcome
    } else {
        after_call(after_calls(outcome, calls.drop_last()), calls.last())
    }
}

/// A callback together with what its calls have decided so far; a call that
/// fails leaves a payload of type `P` (what a caught panic carries).
pub struct CallbackWrapper<F, O, P> {
    f: F,
    result: Result<ControlFlow<O>, P>,
}

impl<F, O, P> CallbackWrapper<F, O, P> {
    /// The callback's outcome so far.
    pub closed spec fn outcome(&self) -> Result<ControlFlow<O>, P> {
        self.result
    }

    /// The wrapped callback.
    pub closed spec fn callback(&self) -> F {
        self.f
    }

    /// Wraps a callback that has not stopped yet.
    pub fn new(f: F) -> (r: Self)
        ensures
            r.callback() == f,
            r.outcome() == Ok::<ControlFlow<O>, P>(ControlFlow::Continue(())),
    {
        CallbackWrapper { f, result: Ok(ControlFlow::Continue(())) }
    }

    /// Records what one call of the callback gave; returns whether the
    /// iteration goes on. A break or a failure ends it and is kept.
    pub fn record(&mut self, call: Result<ControlFlow<O>, P>) -> (r: bool)
        ensures
            final(self).callback() == old(self).callback(),
            r == continues(call),
            final(self).outcome() == after_call(old(self).outcome(), call),
    {
        match call {
            Ok(ControlFlow::Continue(())) => true,
            other => {
                self.result = other;
                false
            },
        }
    }

    /// The callback, to be called on the next value.
    pub fn callback_mut(&mut self) -> (r: &mut F)
        ensures
            *r == old(self).callback(),
            final(self).callback() == *final(r),
            final(self).outcome() == old(self).outcome(),
    {
        &mut self.f
    }

    /// What the calls decided: `Continue` when no call stopped the
    /// iteration, else the break or the failure that stopped it.
    pub fn result(self) -> (r: Result<ControlFlow<O>, P>)
        ensures
            r == self.outcome(),
    {
        self.result
    }
}

} // verus!
