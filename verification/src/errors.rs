//! The error taxonomy of the picker session. Every error is terminal to the
//! run: there are no retries anywhere in this core.

use vstd::prelude::*;

verus! {

/// Failure of the external password generator step.
#[derive(Clone, Copy, Debug, PartialEq, Eq, Structural)]
pub enum GeneratorError {
    /// The generator process could not be started.
    ProcessFailed,
    /// The generator's output was not valid UTF-8 text.
    InvalidEncoding,
}

/// Failure detected before the interactive picker may run.
#[derive(Clone, Copy, Debug, PartialEq, Eq, Structural)]
pub enum PickerError {
    /// The candidate sequence is empty; the picker must never be entered.
    EmptyCandidateSet,
}

/// Failure of the clipboard side effect.
#[derive(Clone, Copy, Debug, PartialEq, Eq, Structural)]
pub enum ClipboardError {
    /// The clipboard helper process could not be spawned.
    SpawnFailed,
    /// The helper's input stream could not be written.
    WriteFailed,
}

/// Failure of the history-append side effect, one variant per step.
#[derive(Clone, Copy, Debug, PartialEq, Eq, Structural)]
pub enum HistoryError {
    /// Creating the history directory failed.
    DirCreateFailed,
    /// Restricting the directory permissions to owner-only failed.
    PermissionFailed,
    /// Opening the history file for append failed.
    FileOpenFailed,
    /// Writing the record line failed.
    WriteFailed,
}

} // verus!
