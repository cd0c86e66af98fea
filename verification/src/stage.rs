//! The unit of computation that pipelines are built from.

use vstd::prelude::*;
use crate::error::StageError;

verus! {

/// A fallible step that turns an `I` into an `O`.
///
/// A stage may depend on the world outside the program, so its behaviour is a
/// relation between an input and the results it may give, not a function.
pub trait Stage<I, O> {
    /// Whether `result` is something this stage may return for `input`.
    ///
    /// A stage that does not say otherwise may return anything.
    open spec fn yields(&self, input: I, result: Result<O, StageError>) -> bool {
        true
    }

    /// Runs the stage once on `input`.
    fn run(&self, input: I) -> (result: Result<O, StageError>)
        ensures
            self.yields(input, result),
    ;
}

} // verus!
