use vstd::prelude::*;

verus! {

/// Where the log of this run is archived when the program stops.  Starting
/// and stopping the log sink is terminal-side work outside the engine; the
/// logger itself only carries the chosen archive path.
pub struct Logger {
    pub archive_path: String,
}

impl Logger {
    pub fn new(archive_path: String) -> (r: Logger)
        ensures
            r.archive_path@ == archive_path@,
    {
        Logger { archive_path }
    }
}

} // verus!
