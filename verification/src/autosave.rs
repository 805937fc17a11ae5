//! Autosave decisions: a file changed on disk since its stamp was taken
//! must not be overwritten, and a save scheduled for an older state of the
//! page is dropped.

use vstd::prelude::*;

verus! {

/// What identifies a file's state on disk: its modification time (whole
/// seconds and nanoseconds after the Unix epoch) and its length.
#[derive(Debug, Clone, Copy, PartialEq, Eq, Structural)]
pub struct FileStamp {
    pub secs: u64,
    pub nanos: u32,
    pub len: u64,
}

/// An autosave must not write when a stamp was expected and the file's
/// current stamp (none when it is gone) differs from it; without an
/// expected stamp nothing can be compared and the write goes ahead.
pub fn autosave_must_skip(expected: Option<FileStamp>, current: Option<FileStamp>) -> (r: bool)
    ensures
        r == (expected is Some && current != expected),
{
    match expected {
        None => false,
        Some(e) => match current {
            None => true,
            Some(c) => c != e,
        },
    }
}

/// What a scheduled autosave does once its wait is over.
#[derive(Debug, Clone, Copy, PartialEq, Eq, Structural)]
pub enum AutosaveStep {
    /// The page changed since it was scheduled (edited, back to its saved
    /// state, renamed or closed): nothing is written.
    Superseded,
    /// The file changed on disk: nothing is written.
    SkipExternalChange,
    /// Write the snapshot.
    Write,
}

/// The decision of a scheduled autosave: superseded when the page's
/// generation moved on from the one it was scheduled at, else skipped when
/// the file changed on disk (see [`autosave_must_skip`]), else written.
pub fn autosave_step(current_gen: u64, my_gen: u64, expected: Option<FileStamp>, current: Option<FileStamp>) -> (r: AutosaveStep)
    ensures
        r == if current_gen != my_gen {
            AutosaveStep::Superseded
        } else if expected is Some && current != expected {
            AutosaveStep::SkipExternalChange
        } else {
            AutosaveStep::Write
        },
{
    if current_gen != my_gen {
        AutosaveStep::Superseded
    } else if autosave_must_skip(expected, current) {
        AutosaveStep::SkipExternalChange
    } else {
        AutosaveStep::Write
    }
}

} // verus!
