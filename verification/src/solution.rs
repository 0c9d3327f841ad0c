use vstd::prelude::*;
use crate::dimensions::Dimensions;

verus! {

/// The result of a solver run: the pattern chosen for each cell of the output grid, in
/// index order.
#[derive(Debug, PartialEq)]
pub struct Solution {
    pub output: Vec<u32>,
    pub output_dimensions: Dimensions<2>,
}

} // verus!
