//! Small services.

use vstd::prelude::*;

verus! {

/// Tempo service (beat divisions are converted to seconds by the renderer).
#[derive(Debug)]
pub struct BpmService {}

impl BpmService {
    pub fn new() -> (r: Self) {
        BpmService {  }
    }
}

} // verus!
