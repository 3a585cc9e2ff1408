//! Request-logging middleware for the registry front end.  The core only
//! defines the type; the HTTP wiring lives with the server binary.

use vstd::prelude::*;

verus! {

pub struct Logging {}

impl Logging {
    pub fn new() -> (r: Self)
        ensures
            r == (Logging {  }),
    {
        Logging {  }
    }
}

} // verus!
