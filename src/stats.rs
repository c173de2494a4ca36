use vstd::prelude::*;

verus! {

/// Line counts of one file, or of several files added together.
#[derive(Clone, Copy, Debug, PartialEq, Eq, Structural)]
pub struct LineStats {
    pub code: u64,
    pub comments: u64,
    pub blanks: u64,
}

impl LineStats {
    pub fn new(code: u64, comments: u64, blanks: u64) -> (r: LineStats)
        ensures
            r.code == code,
            r.comments == comments,
            r.blanks == blanks,
    {
        LineStats { code, comments, blanks }
    }
}

} // verus!
