//! Depth orchestration: one top-level run makes one pass per nesting
//! depth, from the outermost depth down to one. The first pass reads the
//! target file and writes under the output root; every later pass reads
//! the previous pass's output path and overwrites it in place, so markers
//! that an earlier pass's output produced are expanded by the pass of
//! their own depth.

use vstd::prelude::*;
use crate::bytes::subrange_vec;
use crate::resolver::{output_path, output_path_model};
use crate::MAX_DEPTH;

verus! {

/// One pass of a top-level run: the depth to scan for, the file the pass
/// reads, and whether it writes that same path back.
pub struct PassPlan {
    pub depth: usize,
    pub source: Vec<u8>,
    pub overwrite: bool,
}

/// The passes of one top-level run over a target file, in order: first the
/// outermost depth against the target itself, writing under the output
/// root; then each lower depth against that output path, overwriting it.
pub fn depth_schedule(filepath: &Vec<u8>) -> (r: Vec<PassPlan>)
    ensures
        r@.len() == MAX_DEPTH as int,
        forall|i: int| 0 <= i < r@.len() ==> (#[trigger] r@[i]).depth as int == MAX_DEPTH - i,
        r@[0].source@ == filepath@,
        !r@[0].overwrite,
        forall|i: int|
            1 <= i < r@.len() ==> (#[trigger] r@[i]).source@ == output_path_model(filepath@, false)
                && r@[i].overwrite,
{
    let mut r: Vec<PassPlan> = Vec::new();
    let first = subrange_vec(filepath, 0, filepath.len());
    proof {
        assert(first@ =~= filepath@);
    }
    r.push(PassPlan { depth: MAX_DEPTH, source: first, overwrite: false });
    let rewrite = output_path(filepath, false);
    let mut d: usize = MAX_DEPTH - 1;
    while d >= 1
        invariant
            d <= MAX_DEPTH - 1,
            r@.len() == MAX_DEPTH - d,
            rewrite@ == output_path_model(filepath@, false),
            r@[0].source@ == filepath@,
            !r@[0].overwrite,
            forall|i: int| 0 <= i < r@.len() ==> (#[trigger] r@[i]).depth as int == MAX_DEPTH - i,
            forall|i: int|
                1 <= i < r@.len() ==> (#[trigger] r@[i]).source@ == output_path_model(
                    filepath@,
                    false,
                ) && r@[i].overwrite,
        decreases d,
    {
        let source = subrange_vec(&rewrite, 0, rewrite.len());
        proof {
            assert(source@ =~= rewrite@);
        }
        r.push(PassPlan { depth: d, source, overwrite: true });
        d -= 1;
    }
    r
}

} // verus!
