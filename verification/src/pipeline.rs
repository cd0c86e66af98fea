//! Chaining stages into one end-to-end stage.

use vstd::prelude::*;
use std::marker::PhantomData;
use crate::error::StageError;
use crate::stage::Stage;

verus! {

/// Whether `result` may come out of `second` once the stage before it has
/// ended with `mid`: a failure is handed on as it is, and a value is what
/// `second` is run on.
pub open spec fn follows<M, O, B: Stage<M, O>>(
    second: &B,
    mid: Result<M, StageError>,
    result: Result<O, StageError>,
) -> bool {
    match mid {
        Ok(value) => second.yields(value, result),
        Err(e) => result == Err::<O, StageError>(e),
    }
}

/// Whether `result` may come out of running `first` on `input` and then
/// `second` on what `first` gave.
pub open spec fn chained<I, M, O, A: Stage<I, M>, B: Stage<M, O>>(
    first: &A,
    second: &B,
    input: I,
    result: Result<O, StageError>,
) -> bool {
    exists|mid: Result<M, StageError>| #[trigger]
        first.yields(input, mid) && follows(second, mid, result)
}

/// Short circuit: where the first stage can only fail on `input`, whatever the
/// chain returns is one of that stage's failures, handed on as it was. The
/// second stage has no part in it: with any other stage in its place the
/// chain may return the very same.
pub proof fn lemma_failure_ends_chain<I, M, O, A: Stage<I, M>, B: Stage<M, O>, C: Stage<M, O>>(
    first: &A,
    second: &B,
    other: &C,
    input: I,
    result: Result<O, StageError>,
)
    requires
        forall|mid: Result<M, StageError>| #[trigger] first.yields(input, mid) ==> mid is Err,
        chained(first, second, input, result),
    ensures
        result is Err,
        first.yields(input, Err::<M, StageError>(result->Err_0)),
        chained(first, other, input, result),
{
    let mid = choose|mid: Result<M, StageError>| #[trigger]
        first.yields(input, mid) && follows(second, mid, result);
    assert(follows(other, mid, result));
}

/// Goes on after a stage has ended with `mid`: runs `second` on a value, and
/// hands a failure back unchanged without running anything.
pub fn follow<M, O, B: Stage<M, O>>(second: &B, mid: Result<M, StageError>) -> (result: Result<
    O,
    StageError,
>)
    ensures
        follows(second, mid, result),
        mid matches Err(e) ==> result == Err::<O, StageError>(e),
{
    match mid {
        Ok(value) => second.run(value),
        Err(e) => Err(e),
    }
}

/// Two stages in a row, as one stage.
struct Combined<A, B, M> {
    first: A,
    second: B,
    marker: PhantomData<M>,
}

impl<A, B, I, M, O> Stage<I, O> for Combined<A, B, M> where A: Stage<I, M>, B: Stage<M, O> {
    closed spec fn yields(&self, input: I, result: Result<O, StageError>) -> bool {
        chained(&self.first, &self.second, input, result)
    }

    /// Runs `first`, and goes on with `second` from what it gave.
    fn run(&self, input: I) -> (result: Result<O, StageError>)
        ensures
            self.yields(input, result),
    {
        let mid = self.first.run(input);
        let ghost seen = mid;
        let result = follow(&self.second, mid);
        proof {
            assert(self.first.yields(input, seen) && follows(&self.second, seen, result));
        }
        result
    }
}

/// A chain of stages with one input type and one output type.
pub struct Pipeline<S> {
    /// The stage that the whole chain amounts to.
    pub stage: S,
}

impl<S> Pipeline<S> {
    /// Starts a pipeline that consists of `stage` alone.
    pub fn new(stage: S) -> (pipeline: Self)
        ensures
            pipeline.stage == stage,
    {
        Self { stage }
    }

    /// Attaches `next` behind the stages of this pipeline.
    ///
    /// The new pipeline runs this one and then `next` on what it gave; a
    /// failure of this one is the failure of the whole, and `next` is not run.
    pub fn then<Next, I, M, O>(self, next: Next) -> (pipeline: Pipeline<impl Stage<I, O>>) where
        S: Stage<I, M> + 'static,
        Next: Stage<M, O> + 'static,

        ensures
            forall|input: I, result: Result<O, StageError>|
                #[trigger] pipeline.stage.yields(input, result) <==> chained(
                    &self.stage,
                    &next,
                    input,
                    result,
                ),
    {
        Pipeline { stage: Combined { first: self.stage, second: next, marker: PhantomData } }
    }

    /// Runs the chain once on `input`, each stage in the order of attachment.
    pub fn run<I, O>(self, input: I) -> (result: Result<O, StageError>) where S: Stage<I, O>
        ensures
            self.stage.yields(input, result),
    {
        self.stage.run(input)
    }
}

} // verus!
