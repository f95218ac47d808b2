//! A row of pixels as a value of its own.

use vstd::prelude::*;

verus! {

/// One row of pixel values, as handed to the encoder.
#[derive(Clone, Debug)]
pub struct Data {
    pub d: Vec<i32>,
}

} // verus!
