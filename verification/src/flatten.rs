//! Collapsing a nested `Result` into a single one.

use vstd::prelude::*;
use vstd::std_specs::convert::FromSpec;

verus! {

/// Allow to flatten `Result<Result<T, E1>, E2>` into `Result<T, E1>`.
pub trait FlattenResult: Sized {
    /// Output type
    type OutputResult;

    /// Whether `out` is an admissible flattening of `self`.
    spec fn flattens_to(self, out: Self::OutputResult) -> bool;

    /// Flatten result
    fn flatten_result(self) -> (out: Self::OutputResult)
        ensures
            self.flattens_to(out),
    ;
}

impl<T, E1, E2> FlattenResult for Result<Result<T, E1>, E2> where E1: From<E2> {
    type OutputResult = Result<T, E1>;

    /// An inner result passes through untouched. An outer error is converted
    /// by `E1::from`; where that conversion has a specification the converted
    /// error is exactly the specified one.
    open spec fn flattens_to(self, out: Result<T, E1>) -> bool {
        match self {
            Ok(inner) => out == inner,
            Err(e) => out is Err && call_ensures(E1::from, (e,), out->Err_0) && (
            E1::obeys_from_spec() ==> out->Err_0 == E1::from_spec(e)),
        }
    }

    fn flatten_result(self) -> (out: Self::OutputResult) {
        match self {
            Ok(Ok(x)) => Ok(x),
            Ok(Err(e)) => Err(e),
            Err(e) => Err(E1::from(e)),
        }
    }
}

} // verus!
