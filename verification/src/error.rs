//! Every error that the graphs of this crate return.

use vstd::prelude::*;
use vstd::std_specs::convert::FromSpecImpl;

use crate::graph::AddEdgeError;

verus! {

/// Any of the errors that the graphs of this crate return.
#[derive(Debug)]
pub enum Error {
    AddEdgeError(AddEdgeError),
}

impl From<AddEdgeError> for Error {
    fn from(error: AddEdgeError) -> (wrapped: Self) {
        Self::AddEdgeError(error)
    }
}

impl FromSpecImpl<AddEdgeError> for Error {
    open spec fn obeys_from_spec() -> bool {
        true
    }

    open spec fn from_spec(error: AddEdgeError) -> Self {
        Error::AddEdgeError(error)
    }
}

} // verus!
