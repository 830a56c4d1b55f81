use vstd::prelude::*;

pub mod bng;
mod clock;
pub mod games;
pub mod json;
pub mod logs;
pub mod netg;
pub mod ratio;
pub mod seqs;

verus! {

} // verus!
