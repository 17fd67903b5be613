//! The report of a run: groups of identical files and groups of similar
//! files, each group a sorted sequence of display paths.

use vstd::prelude::*;

verus! {

/// A report of duplicate and similar files.
pub struct Report {
    /// The sets of identical files.
    pub identicals: Vec<Vec<String>>,
    /// The sets of similar files.
    pub similars: Vec<Vec<String>>,
}

impl Report {
    /// Assemble a report from its two collections of groups.
    pub fn from(identicals: Vec<Vec<String>>, similars: Vec<Vec<String>>) -> (r: Report)
        ensures
            r.identicals@ == identicals@,
            r.similars@ == similars@,
    {
        Report { identicals, similars }
    }
}

} // verus!
