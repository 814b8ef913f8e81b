//! Why a collector could not produce its metrics.

use vstd::prelude::*;

verus! {

/// A failed collection, told as a message for the operator.
#[derive(Debug, Clone)]
pub struct Error {
    pub message: String,
}

impl View for Error {
    type V = Seq<char>;

    open spec fn view(&self) -> Seq<char> {
        self.message@
    }
}

impl Error {
    pub fn new(message: String) -> (r: Self)
        ensures
            r@ == message@,
    {
        Error { message }
    }
}

} // verus!
