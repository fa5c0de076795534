//! The combinations of an invoker with an interceptor. How they are invoked
//! (the `Invoke` and `Intercept` traits, whose methods run calls) is the
//! business of the runtime glue; here are the combinations themselves.

use vstd::prelude::*;

verus! {

/// Turns a reusable interceptor into one that is used once.
#[derive(Clone)]
pub struct IntoOnce<T>(pub T);

/// An invoker and an interceptor that every call made through the
/// combination goes through.
#[derive(Clone, Copy)]
pub struct Intercepted<Inv, Int> {
    invoke: Inv,
    intercept: Int,
}

impl<Inv, Int> Intercepted<Inv, Int> {
    pub closed spec fn invoke_of(&self) -> Inv {
        self.invoke
    }

    pub closed spec fn intercept_of(&self) -> Int {
        self.intercept
    }

    pub fn new(invoke: Inv, intercept: Int) -> (r: Self)
        ensures
            r.invoke_of() == invoke,
            r.intercept_of() == intercept,
    {
        Intercepted { invoke, intercept }
    }

    /// The invoker.
    pub fn invoke(&self) -> (r: &Inv)
        ensures
            *r == self.invoke_of(),
    {
        &self.invoke
    }

    /// The interceptor.
    pub fn intercept(&self) -> (r: &Int)
        ensures
            *r == self.intercept_of(),
    {
        &self.intercept
    }

    /// The invoker and the interceptor, taken apart.
    pub fn into_parts(self) -> (r: (Inv, Int))
        ensures
            r == (self.invoke_of(), self.intercept_of()),
    {
        (self.invoke, self.intercept)
    }
}

/// A reusable invoker combined with an interceptor that is used once.
pub struct InterceptedOnce<Inv, Int> {
    invoke: Inv,
    intercept: Int,
}

impl<Inv, Int> InterceptedOnce<Inv, Int> {
    pub closed spec fn invoke_of(&self) -> Inv {
        self.invoke
    }

    pub closed spec fn intercept_of(&self) -> Int {
        self.intercept
    }

    pub fn new(invoke: Inv, intercept: Int) -> (r: Self)
        ensures
            r.invoke_of() == invoke,
            r.intercept_of() == intercept,
    {
        InterceptedOnce { invoke, intercept }
    }

    /// The invoker and the interceptor, taken apart.
    pub fn into_parts(self) -> (r: (Inv, Int))
        ensures
            r == (self.invoke_of(), self.intercept_of()),
    {
        (self.invoke, self.intercept)
    }
}

} // verus!
