//! What a solver can be told.

use vstd::prelude::*;

verus! {

/// The value of a parameter of a solver.
#[derive(Debug)]
pub enum Parameter {
    Int(i64),
    String(String),
}

impl Clone for Parameter {
    fn clone(&self) -> (r: Self)
        ensures
            r == *self,
    {
        match self {
            Parameter::Int(i) => Parameter::Int(*i),
            Parameter::String(s) => Parameter::String(s.clone()),
        }
    }
}

} // verus!
