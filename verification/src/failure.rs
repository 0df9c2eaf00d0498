//! What can go wrong in a run, and whether the run goes on after it.

use vstd::prelude::*;

verus! {

/// What can go wrong in a run.
#[derive(Clone, Copy, Debug, PartialEq, Eq, Structural)]
pub enum Failure {
    /// No source directory was given.
    MissingArgument,
    /// The place of the program itself, from which the default paths are
    /// made, could not be found.
    PathResolution,
    /// There is no list of icon names to read.
    IconListNotFound,
    /// The output directory, or a directory for an icon below it, could not
    /// be made.
    DirectoryCreation,
    /// A directory of the icon theme could not be read.
    DirectoryScan,
    /// One icon could not be copied.
    FileCopy,
}

/// A failure to copy one icon is passed over. Every other failure ends the
/// run.
pub open spec fn ends_run(failure: Failure) -> bool {
    !(failure is FileCopy)
}

/// Tells whether the run ends with `failure`, or goes on with the next icon.
pub fn is_fatal(failure: Failure) -> (fatal: bool)
    ensures
        fatal == ends_run(failure),
{
    match failure {
        Failure::FileCopy => false,
        _ => true,
    }
}

} // verus!
