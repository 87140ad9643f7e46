use vstd::prelude::*;
use crate::error::{Error, IoFailure, Operation};
use crate::path::{parent_of, FsPath};

verus! {

/// One operation on the file system, which the caller performs and reports back.
#[derive(Debug)]
pub enum Step {
    /// Create exactly one directory; its parent must exist.
    CreateDir(FsPath),
    /// Create a directory and each missing ancestor; a directory already there is no error.
    CreateDirAll(FsPath),
    /// Remove one file.
    RemoveFile(FsPath),
    /// Remove a directory and everything under it.
    RemoveDirAll(FsPath),
    /// Copy the bytes of the file `from` to the file `to`.
    Copy { from: FsPath, to: FsPath },
}

/// A step with its paths as components.
pub enum StepView {
    CreateDir(Seq<Seq<u8>>),
    CreateDirAll(Seq<Seq<u8>>),
    RemoveFile(Seq<Seq<u8>>),
    RemoveDirAll(Seq<Seq<u8>>),
    Copy(Seq<Seq<u8>>, Seq<Seq<u8>>),
}

impl View for Step {
    type V = StepView;

    open spec fn view(&self) -> StepView {
        match self {
            Step::CreateDir(p) => StepView::CreateDir(p@),
            Step::CreateDirAll(p) => StepView::CreateDirAll(p@),
            Step::RemoveFile(p) => StepView::RemoveFile(p@),
            Step::RemoveDirAll(p) => StepView::RemoveDirAll(p@),
            Step::Copy { from, to } => StepView::Copy(from@, to@),
        }
    }
}

/// The views of a sequence of steps.
pub open spec fn step_views(s: Seq<Step>) -> Seq<StepView> {
    s.map_values(|x: Step| x@)
}

/// The error that a step fails with: the cause, the path or paths, and the operation.
pub open spec fn step_failure(step: Step, cause: IoFailure) -> Error {
    match step {
        Step::CreateDir(p) => Error::IoExt { source: cause, path: p, operation: Operation::Create },
        Step::CreateDirAll(p) => Error::IoExt {
            source: cause,
            path: p,
            operation: Operation::CreatePathAll,
        },
        Step::RemoveFile(p) => Error::IoExt { source: cause, path: p, operation: Operation::Remove },
        Step::RemoveDirAll(p) => Error::IoExt {
            source: cause,
            path: p,
            operation: Operation::RemoveDirAll,
        },
        Step::Copy { from, to } => Error::IoExtMulti {
            source: cause,
            from,
            to,
            operation: Operation::Copy,
        },
    }
}

/// The bytes that a step adds to a total: what a copy reports; nothing for the others.
pub open spec fn step_bytes(step: StepView, reported: u64) -> u64 {
    match step {
        StepView::Copy(_, _) => reported,
        _ => 0,
    }
}

/// What a step comes to, given what the file system reported for it.
pub open spec fn settled(step: Step, outcome: Result<u64, IoFailure>) -> Result<u64, Error> {
    match outcome {
        Ok(n) => Ok(step_bytes(step@, n)),
        Err(cause) => Err(step_failure(step, cause)),
    }
}

impl Step {
    /// What this step comes to, given what the file system reported for it: the bytes it
    /// copied, or the error that names its paths and operation.
    pub fn settle(self, outcome: Result<u64, IoFailure>) -> (r: Result<u64, Error>)
        ensures
            r == settled(self, outcome),
    {
        match outcome {
            Ok(n) => match self {
                Step::Copy { .. } => Ok(n),
                _ => Ok(0),
            },
            Err(cause) => Err(
                match self {
                    Step::CreateDir(p) => Error::IoExt {
                        source: cause,
                        path: p,
                        operation: Operation::Create,
                    },
                    Step::CreateDirAll(p) => Error::IoExt {
                        source: cause,
                        path: p,
                        operation: Operation::CreatePathAll,
                    },
                    Step::RemoveFile(p) => Error::IoExt {
                        source: cause,
                        path: p,
                        operation: Operation::Remove,
                    },
                    Step::RemoveDirAll(p) => Error::IoExt {
                        source: cause,
                        path: p,
                        operation: Operation::RemoveDirAll,
                    },
                    Step::Copy { from, to } => Error::IoExtMulti {
                        source: cause,
                        from,
                        to,
                        operation: Operation::Copy,
                    },
                },
            ),
        }
    }
}

/// The steps that copy `from` to `to` after making sure that the directory of `to` exists:
/// it is created, with its ancestors, where `to` has one and it is missing.
pub open spec fn copy_create_plan(from: Seq<Seq<u8>>, to: Seq<Seq<u8>>, parent_exists: bool) -> Seq<
    StepView,
> {
    match parent_of(to) {
        Some(parent) if !parent_exists => seq![
            StepView::CreateDirAll(parent),
            StepView::Copy(from, to),
        ],
        _ => seq![StepView::Copy(from, to)],
    }
}

/// The steps that move the file `from` to `to`: copy it, creating the directory of `to`
/// where it is missing, then remove `from`.
pub open spec fn move_file_plan(from: Seq<Seq<u8>>, to: Seq<Seq<u8>>, parent_exists: bool) -> Seq<
    StepView,
> {
    copy_create_plan(from, to, parent_exists).push(StepView::RemoveFile(from))
}

/// The steps that copy `from` to `to`, creating the directory of `to` first where it has
/// one and `parent_exists` says that it is missing.
pub fn copy_create_steps(from: &FsPath, to: &FsPath, parent_exists: bool) -> (r: Vec<Step>)
    ensures
        step_views(r@) == copy_create_plan(from@, to@, parent_exists),
{
    let mut r: Vec<Step> = Vec::new();
    if !parent_exists {
        match to.parent() {
            Some(parent) => r.push(Step::CreateDirAll(parent)),
            None => {},
        }
    }
    r.push(Step::Copy { from: from.duplicate(), to: to.duplicate() });
    assert(step_views(r@) =~= copy_create_plan(from@, to@, parent_exists));
    r
}

/// The steps that move the file `from` to `to`: those of `copy_create_steps`, then the
/// removal of `from`. Run in order and stopped at the first failure, a failed copy leaves
/// `from` in place; a failed removal leaves both files.
pub fn move_file_steps(from: &FsPath, to: &FsPath, parent_exists: bool) -> (r: Vec<Step>)
    ensures
        step_views(r@) == move_file_plan(from@, to@, parent_exists),
{
    let mut r = copy_create_steps(from, to, parent_exists);
    let ghost before = r@;
    r.push(Step::RemoveFile(from.duplicate()));
    assert(step_views(r@) =~= step_views(before).push(StepView::RemoveFile(from@)));
    r
}

/// The bytes that a sequence of settled steps copied, each with what it reported.
pub open spec fn sum_bytes(h: Seq<(StepView, u64)>) -> int
    decreases h.len(),
{
    if h.len() == 0 {
        0
    } else {
        sum_bytes(h.drop_last()) + step_bytes(h.last().0, h.last().1)
    }
}

/// A running total of the bytes that a sequence of steps copied.
pub struct Tally {
    copied: u64,
    settled: Ghost<Seq<(StepView, u64)>>,
}

impl Tally {
    #[verifier::type_invariant]
    spec fn counts_all(self) -> bool {
        self.copied == sum_bytes(self.settled@)
    }

    /// The steps settled so far without error, each with the bytes it reported.
    pub closed spec fn history(&self) -> Seq<(StepView, u64)> {
        self.settled@
    }

    /// A tally of nothing.
    pub fn new() -> (r: Tally)
        ensures
            r.history() == Seq::<(StepView, u64)>::empty(),
    {
        Tally { copied: 0, settled: Ghost(Seq::empty()) }
    }

    /// The bytes that the steps settled so far copied.
    pub fn copied(&self) -> (r: u64)
        ensures
            r == sum_bytes(self.history()),
    {
        proof {
            use_type_invariant(self);
        }
        self.copied
    }

    /// Whether a step that reported `n` bytes can still be counted without overflow.
    pub fn has_room(&self, n: u64) -> (r: bool)
        ensures
            r == (sum_bytes(self.history()) + n <= u64::MAX),
    {
        proof {
            use_type_invariant(self);
        }
        n <= u64::MAX - self.copied
    }

    /// Settles a step that was performed: its bytes are counted, or its error is returned
    /// and the tally is left as it was.
    pub fn record(&mut self, step: Step, outcome: Result<u64, IoFailure>) -> (r: Result<(), Error>)
        requires
            outcome matches Ok(n) ==> sum_bytes(old(self).history()) + n <= u64::MAX,
        ensures
            match outcome {
                Ok(n) => r is Ok && final(self).history() == old(self).history().push((step@, n)),
                Err(cause) => r == Err::<(), Error>(step_failure(step, cause))
                    && final(self).history() == old(self).history(),
            },
    {
        proof {
            use_type_invariant(&*self);
        }
        let ghost v = step@;
        match outcome {
            Ok(n) => {
                let b = match step.settle(Ok(n)) {
                    Ok(b) => b,
                    Err(_) => 0,
                };
                let ghost h = self.settled@.push((v, n));
                assert(h.drop_last() =~= self.settled@);
                *self = Tally { copied: self.copied + b, settled: Ghost(h) };
                Ok(())
            },
            Err(cause) => match step.settle(Err(cause)) {
                Ok(_) => Ok(()),
                Err(e) => Err(e),
            },
        }
    }
}

} // verus!
