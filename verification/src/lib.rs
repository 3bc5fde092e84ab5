//! Verified solvers for a set of small line-oriented puzzles.
//!
//! The heart of the crate is the rectangle-claim analysis: parsing textual
//! claim records into [`rect::Rect`] values and measuring how the claimed
//! rectangles overlap on a dense counting grid ([`overlaps::Overlaps`]).
//! Around it stand the smaller verified helpers the other solvers use:
//! repeated-frequency search, box-id checksums, and line parsing.

pub mod cycle;
pub mod digits;
pub mod inventory;
pub mod lines;
pub mod overlaps;
pub mod rect;

use vstd::prelude::*;

use vstd::string::StringExecFns;

use crate::digits::append_dec;
use crate::digits::dec_str;

verus! {

/// The argument list handed to a solver had more entries than the one
/// optional input-file path every solver accepts.
pub struct InvalidArguments {
    pub num_args: usize,
}

impl InvalidArguments {
    /// The human-readable description the solvers print.
    pub fn message(&self) -> (m: String)
        ensures
            m@ == "Invalid number of arguments: "@ + dec_str(self.num_args as nat),
    {
        let mut m = String::new();
        m.append("Invalid number of arguments: ");
        append_dec(&mut m, self.num_args as u64);
        proof {
            assert(self.num_args as u64 as nat == self.num_args as nat);
            assert(m@ =~= "Invalid number of arguments: "@ + dec_str(self.num_args as nat));
        }
        m
    }
}

} // verus!
