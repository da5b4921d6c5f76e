//! What the operations come to for those who use them, in terms of what goes in and what comes out.
use vstd::prelude::*;

pub mod admission;
pub mod aggregating;
pub mod answering;
pub mod columns;
pub mod counting;
pub mod editing;
pub mod keeping;
pub mod matching;
pub mod ordering;
pub mod placing;
pub mod reading;
pub mod refusing;
pub mod reporting;
pub mod showing;
pub mod terms;
pub mod texts;
pub mod values;
pub mod writing;

verus! {

} // verus!
