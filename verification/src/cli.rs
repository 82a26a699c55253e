//! The decisions a command-line driver makes around a copy: argument-count
//! validation, dispatch on the source's kind, and the step taken for each
//! directory entry met during the traversal.
//!
//! The driver performs the filesystem work; every choice it acts on is made
//! here, so that an `Err` outcome always means that no filesystem mutation
//! is to happen.

use vstd::prelude::*;

verus! {

/// What kind of entry a path turned out to be, as the operating system
/// reports it: a regular file, a directory, or anything else (a path that
/// does not exist, a symlink, a socket, a device, ...).
#[derive(Clone, Copy, PartialEq, Eq, Structural, Debug)]
pub enum SourceKind {
    File,
    Dir,
    Other,
}

/// The copy a run performs, chosen from the source's kind.
#[derive(Clone, Copy, PartialEq, Eq, Structural, Debug)]
pub enum CopyMode {
    FileCopy,
    TreeCopy,
}

/// Why a run stops before it copies anything.
#[derive(Clone, Copy, PartialEq, Eq, Structural, Debug)]
pub enum InvocationError {
    /// The command line did not hold exactly the program name and two paths.
    Usage,
    /// The source path is neither a regular file nor a directory.
    BadSource,
}

impl InvocationError {
    /// Every failure that stops a run before or during the copy exits with
    /// code 1; 0 is kept for full success.
    pub fn exit_code(&self) -> (c: u8)
        ensures
            c == 1u8,
    {
        1
    }
}

/// A run goes ahead exactly when the command line holds the program name and
/// two paths, three entries in all; any other count is refused with a usage
/// error, before any path is even looked at.
pub fn check_arg_count(arg_count: usize) -> (r: Result<(), InvocationError>)
    ensures
        r is Ok <==> arg_count == 3,
        r is Err ==> r == Err::<(), InvocationError>(InvocationError::Usage),
{
    if arg_count == 3 {
        Ok(())
    } else {
        Err(InvocationError::Usage)
    }
}

/// Choose what a run does from the kind of its source: a regular file is
/// copied as one unit, a directory is mirrored recursively, and anything
/// else is refused before any filesystem mutation.
pub fn select_mode(kind: SourceKind) -> (r: Result<CopyMode, InvocationError>)
    ensures
        r is Ok <==> (kind == SourceKind::File || kind == SourceKind::Dir),
        kind == SourceKind::File ==> r == Ok::<CopyMode, InvocationError>(CopyMode::FileCopy),
        kind == SourceKind::Dir ==> r == Ok::<CopyMode, InvocationError>(CopyMode::TreeCopy),
        kind == SourceKind::Other ==> r == Err::<CopyMode, InvocationError>(
            InvocationError::BadSource,
        ),
{
    match kind {
        SourceKind::File => Ok(CopyMode::FileCopy),
        SourceKind::Dir => Ok(CopyMode::TreeCopy),
        SourceKind::Other => Err(InvocationError::BadSource),
    }
}

/// What the traversal does with one entry of a directory, by its kind: a
/// regular file has its bytes copied, a directory is entered, and anything
/// else is skipped in silence.
#[derive(Clone, Copy, PartialEq, Eq, Structural, Debug)]
pub enum EntryStep {
    CopyBytes,
    Recurse,
    Skip,
}

/// The step for one directory entry met during the traversal.
pub fn entry_step(kind: SourceKind) -> (r: EntryStep)
    ensures
        kind == SourceKind::File ==> r == EntryStep::CopyBytes,
        kind == SourceKind::Dir ==> r == EntryStep::Recurse,
        kind == SourceKind::Other ==> r == EntryStep::Skip,
{
    match kind {
        SourceKind::File => EntryStep::CopyBytes,
        SourceKind::Dir => EntryStep::Recurse,
        SourceKind::Other => EntryStep::Skip,
    }
}

} // verus!
