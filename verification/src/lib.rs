//! A macro preprocessor core: scans a document for depth-tagged delimited
//! script blocks, evaluates each block, splices the results back into the
//! surrounding text byte for byte, and discovers local module dependencies
//! so that a driver can run the same pipeline over every imported file.

use vstd::prelude::*;

pub mod bytes;
pub mod eval;
pub mod orchestrate;
pub mod resolver;
pub mod scanner;
pub mod splice;
pub mod visited;

verus! {

/// The failures that the preprocessing core itself can report. I/O failures
/// belong to the driver that reads and writes files, not to this library.
#[derive(Debug)]
pub enum PpError {
    /// A multi-block statement was still being accumulated when the last
    /// delimited block of the document had been consumed. Carries the
    /// accumulated script text.
    UnclosedBlock(Vec<u8>),
    /// The evaluator reported a failure that is not an incomplete-statement
    /// signal. Carries the evaluator's message.
    ScriptFailure(Vec<u8>),
    /// The open and close markers of the document are not properly
    /// alternating, so positional pairing would produce nonsense spans.
    MisorderedMarkers,
}

/// The outermost nesting depth: the first pass scans for markers of this
/// width, and each later pass scans for one level less.
pub const MAX_DEPTH: usize = 5;

} // verus!
