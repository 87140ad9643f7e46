use vstd::prelude::*;
use crate::error::{Error, IoErrorKind, IoFailure, Operation, WalkFailure};
use crate::path::FsPath;
use crate::remap::{change_dir, is_strip_error, remapped};
use crate::step::{step_failure, sum_bytes, Step, StepView, Tally};

verus! {

/// An entry that the directory walk produced: its path, and whether it is a directory.
#[derive(Debug)]
pub struct WalkEntry {
    pub path: FsPath,
    pub is_dir: bool,
}

/// Whether `e` is the error for a source tree that is missing.
pub open spec fn is_missing_error(e: Error, from: Seq<Seq<u8>>) -> bool {
    e matches Error::IoExt { source, path, operation } && source.kind == IoErrorKind::NotFound
        && source.message@.len() == 0 && path@ == from && operation == Operation::CopyDirAll
}

/// Whether `e` is the error for a source tree that is not a directory.
pub open spec fn is_not_directory_error(e: Error, from: Seq<Seq<u8>>) -> bool {
    e matches Error::NotDirectory { path } && path@ == from
}

/// The error for a source tree that fails the check: missing, or not a directory.
pub open spec fn is_source_error(e: Error, from: Seq<Seq<u8>>, exists: bool) -> bool {
    if !exists {
        is_missing_error(e, from)
    } else {
        is_not_directory_error(e, from)
    }
}

/// The check made before a tree is copied: its root must exist and be a directory.
pub fn check_source(from: &FsPath, exists: bool, is_dir: bool) -> (r: Result<(), Error>)
    ensures
        r is Ok <==> exists && is_dir,
        r matches Err(e) ==> is_source_error(e, from@, exists),
{
    if !exists {
        return Err(
            Error::IoExt {
                source: IoFailure { kind: IoErrorKind::NotFound, message: String::new() },
                path: from.duplicate(),
                operation: Operation::CopyDirAll,
            },
        );
    }
    if !is_dir {
        return Err(Error::NotDirectory { path: from.duplicate() });
    }
    Ok(())
}

/// The step that replicates a walked entry when a tree is copied one entry at a time: a
/// directory is created alone, since the walk has already passed its parent; a file is
/// copied. `None` where the entry does not lie under `from`.
pub open spec fn sequential_step(
    from: Seq<Seq<u8>>,
    to: Seq<Seq<u8>>,
    path: Seq<Seq<u8>>,
    is_dir: bool,
) -> Option<StepView> {
    match remapped(from, to, path) {
        Some(dest) => Some(
            if is_dir {
                StepView::CreateDir(dest)
            } else {
                StepView::Copy(path, dest)
            },
        ),
        None => None,
    }
}

/// Copies a tree one entry at a time. The caller checks the root, walks it with parents
/// before children, asks for the step of each entry, performs it and records what came of
/// it. The first error ends the copy: after it, no further step is asked for or recorded,
/// and neither the bytes copied so far nor the removal of the source are given out.
pub struct TreeCopy {
    from: FsPath,
    to: FsPath,
    tally: Tally,
    failed: bool,
}

impl TreeCopy {
    /// The root of the tree that is copied.
    pub closed spec fn source(&self) -> Seq<Seq<u8>> {
        self.from@
    }

    /// Where the tree is copied to.
    pub closed spec fn dest(&self) -> Seq<Seq<u8>> {
        self.to@
    }

    /// The steps performed so far without error, each with the bytes it reported.
    pub closed spec fn history(&self) -> Seq<(StepView, u64)> {
        self.tally.history()
    }

    /// Whether the copy has ended with an error.
    pub closed spec fn has_failed(&self) -> bool {
        self.failed
    }

    /// A copy of `from` to `to` that has performed no step yet.
    pub open spec fn is_fresh(&self, from: Seq<Seq<u8>>, to: Seq<Seq<u8>>) -> bool {
        &&& self.source() == from
        &&& self.dest() == to
        &&& self.history() == Seq::<(StepView, u64)>::empty()
        &&& !self.has_failed()
    }

    /// Starts a copy of `from` to `to`, given whether `from` exists and is a directory.
    pub fn start(from: FsPath, to: FsPath, exists: bool, is_dir: bool) -> (r: Result<
        TreeCopy,
        Error,
    >)
        ensures
            r is Ok <==> exists && is_dir,
            r matches Ok(t) ==> t.is_fresh(from@, to@),
            r matches Err(e) ==> is_source_error(e, from@, exists),
    {
        match check_source(&from, exists, is_dir) {
            Ok(()) => Ok(TreeCopy { from, to, tally: Tally::new(), failed: false }),
            Err(e) => Err(e),
        }
    }

    /// Whether the copy has ended with an error.
    pub fn failed(&self) -> (r: bool)
        ensures
            r == self.has_failed(),
    {
        self.failed
    }

    /// The step for what the walk produced next: a walk failure is returned as
    /// `Error::WalkDir`, an entry outside the root as `Error::StripPrefix`; either ends the
    /// copy.
    pub fn step_for(&mut self, entry: Result<WalkEntry, WalkFailure>) -> (r: Result<Step, Error>)
        requires
            !old(self).has_failed(),
        ensures
            final(self).source() == old(self).source(),
            final(self).dest() == old(self).dest(),
            final(self).history() == old(self).history(),
            final(self).has_failed() == r is Err,
            match entry {
                Err(f) => r == Err::<Step, Error>(Error::WalkDir { source: f }),
                Ok(e) => match sequential_step(old(self).source(), old(self).dest(), e.path@, e.is_dir) {
                    Some(s) => r matches Ok(step) && step@ == s,
                    None => r matches Err(err) && is_strip_error(err, e.path@, old(self).source()),
                },
            },
    {
        let r = match entry {
            Err(f) => Err(Error::WalkDir { source: f }),
            Ok(e) => match change_dir(&self.from, &self.to, &e.path) {
                Ok(dest) => if e.is_dir {
                    Ok(Step::CreateDir(dest))
                } else {
                    Ok(Step::Copy { from: e.path, to: dest })
                },
                Err(err) => Err(err),
            },
        };
        if r.is_err() {
            self.failed = true;
        }
        r
    }

    /// Whether a step that reported `n` bytes can still be counted without overflow.
    pub fn has_room(&self, n: u64) -> (r: bool)
        ensures
            r == (sum_bytes(self.history()) + n <= u64::MAX),
    {
        self.tally.has_room(n)
    }

    /// Records what came of a step: its bytes are counted, or its error is returned and
    /// ends the copy.
    pub fn record(&mut self, step: Step, outcome: Result<u64, IoFailure>) -> (r: Result<(), Error>)
        requires
            !old(self).has_failed(),
            outcome matches Ok(n) ==> sum_bytes(old(self).history()) + n <= u64::MAX,
        ensures
            final(self).source() == old(self).source(),
            final(self).dest() == old(self).dest(),
            final(self).has_failed() == r is Err,
            match outcome {
                Ok(n) => r is Ok && final(self).history() == old(self).history().push((step@, n)),
                Err(cause) => r == Err::<(), Error>(step_failure(step, cause))
                    && final(self).history() == old(self).history(),
            },
    {
        let r = self.tally.record(step, outcome);
        if r.is_err() {
            self.failed = true;
        }
        r
    }

    /// The bytes that the files copied so far hold; given out only while no error ended
    /// the copy.
    pub fn copied(&self) -> (r: u64)
        requires
            !self.has_failed(),
        ensures
            r == sum_bytes(self.history()),
    {
        self.tally.copied()
    }

    /// The step that removes the source tree, once it was copied without error, to
    /// complete a move.
    pub fn removal(&self) -> (r: Step)
        requires
            !self.has_failed(),
        ensures
            r@ == StepView::RemoveDirAll(self.source()),
    {
        Step::RemoveDirAll(self.from.duplicate())
    }
}

} // verus!
