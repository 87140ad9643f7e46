use vstd::prelude::*;
use vstd::string::StringSliceAdditionalSpecFns;
use vstd::utf8::encode_utf8;
use crate::path::{push_bytes, render, FsPath};

verus! {

/// The logical operation that an error was met in. It only describes; it never decides.
#[derive(Clone, Copy, Debug, PartialEq, Eq, Structural)]
pub enum Operation {
    Remove,
    RemoveDirAll,
    Create,
    CreatePathAll,
    Move,
    MoveDirAll,
    Copy,
    CopyDirAll,
}

/// How the operation is named in messages.
pub open spec fn operation_text(op: Operation) -> Seq<u8> {
    match op {
        Operation::Remove => "remove".spec_bytes(),
        Operation::RemoveDirAll => "remove dir all".spec_bytes(),
        Operation::Create => "create".spec_bytes(),
        Operation::CreatePathAll => "create path all".spec_bytes(),
        Operation::Move => "move".spec_bytes(),
        Operation::MoveDirAll => "move dir all".spec_bytes(),
        Operation::Copy => "copy".spec_bytes(),
        Operation::CopyDirAll => "copy dir all".spec_bytes(),
    }
}

impl Operation {
    /// The operation's name, as messages write it.
    pub fn as_str(&self) -> (r: &'static str)
        ensures
            r.spec_bytes() == operation_text(*self),
    {
        match self {
            Operation::Remove => "remove",
            Operation::RemoveDirAll => "remove dir all",
            Operation::Create => "create",
            Operation::CreatePathAll => "create path all",
            Operation::Move => "move",
            Operation::MoveDirAll => "move dir all",
            Operation::Copy => "copy",
            Operation::CopyDirAll => "copy dir all",
        }
    }
}

/// The kind of a failed input or output operation, as the platform reports it.
#[derive(Clone, Copy, Debug, PartialEq, Eq, Structural)]
pub enum IoErrorKind {
    NotFound,
    PermissionDenied,
    AlreadyExists,
    WouldBlock,
    InvalidInput,
    InvalidData,
    TimedOut,
    WriteZero,
    Interrupted,
    Unsupported,
    UnexpectedEof,
    OutOfMemory,
    Other,
}

/// A failed input or output operation: its kind and the platform's description of it.
#[derive(Debug)]
pub struct IoFailure {
    pub kind: IoErrorKind,
    pub message: String,
}

/// A failure of the directory walk: the input or output failure under it, if there was
/// one, and the walk's description of it.
#[derive(Debug)]
pub struct WalkFailure {
    pub io: Option<IoFailure>,
    pub message: String,
}

/// What went wrong, with the paths and the operation involved.
#[derive(Debug)]
pub enum Error {
    /// An operation on one path failed.
    IoExt { source: IoFailure, path: FsPath, operation: Operation },
    /// An operation from one path to another failed.
    IoExtMulti { source: IoFailure, from: FsPath, to: FsPath, operation: Operation },
    /// An operation failed, and so did the attempt to recover from it.
    Recover { operation: Box<Error>, recovery: Box<Error> },
    /// `target` does not lie under `strip`.
    StripPrefix { target: FsPath, strip: FsPath },
    /// The path was expected to be a directory.
    NotDirectory { path: FsPath },
    /// Walking a directory tree failed.
    WalkDir { source: WalkFailure },
}

/// The input or output failure under an error. Of a failed recovery it is the recovery's.
pub open spec fn io_cause(e: Error) -> Option<IoFailure>
    decreases e,
{
    match e {
        Error::IoExt { source, .. } => Some(source),
        Error::IoExtMulti { source, .. } => Some(source),
        Error::Recover { recovery, .. } => io_cause(*recovery),
        Error::StripPrefix { .. } => None,
        Error::NotDirectory { .. } => None,
        Error::WalkDir { source } => source.io,
    }
}

/// The kind of the input or output failure under an error; `Other` where there is none.
pub open spec fn kind_of(e: Error) -> IoErrorKind {
    match io_cause(e) {
        Some(f) => f.kind,
        None => IoErrorKind::Other,
    }
}

/// The error that stands after a recovery was attempted: the error it was attempted for
/// where the recovery succeeded, both where it failed.
pub open spec fn recovered(e: Error, outcome: Result<(), Error>) -> Error {
    match outcome {
        Ok(()) => e,
        Err(r) => Error::Recover { operation: Box::new(e), recovery: Box::new(r) },
    }
}

/// The bytes of a string.
pub open spec fn text_bytes(s: String) -> Seq<u8> {
    encode_utf8(s@)
}

/// The message that describes an error.
pub open spec fn error_text(e: Error) -> Seq<u8>
    decreases e,
{
    match e {
        Error::IoExt { source, path, operation } => "A ".spec_bytes() + text_bytes(source.message)
            + " on path ".spec_bytes() + render(path@) + " failed: ".spec_bytes() + operation_text(
            operation,
        ),
        Error::IoExtMulti { source, from, to, operation } => "A ".spec_bytes() + text_bytes(
            source.message,
        ) + " from path ".spec_bytes() + render(from@) + " to path ".spec_bytes() + render(to@)
            + " failed: ".spec_bytes() + operation_text(operation),
        Error::Recover { operation, recovery } => error_text(*operation)
            + " Tried to recover but it failed: ".spec_bytes() + error_text(*recovery),
        Error::StripPrefix { target, strip } => "Failed to strip prefix of ".spec_bytes() + render(
            target@,
        ) + " with ".spec_bytes() + render(strip@) + ": prefix not found".spec_bytes(),
        Error::NotDirectory { path } => render(path@) + " is not a directory".spec_bytes(),
        Error::WalkDir { source } => "Error walking directory: ".spec_bytes() + text_bytes(
            source.message,
        ),
    }
}

/// Appends the bytes of a string to a buffer.
fn push_str(out: &mut Vec<u8>, s: &str)
    ensures
        final(out)@ == old(out)@ + s.spec_bytes(),
{
    let b = s.as_bytes();
    let mut i: usize = 0;
    while i < b.len()
        invariant
            0 <= i <= b@.len(),
            b@ == s.spec_bytes(),
            out@ == old(out)@ + b@.subrange(0, i as int),
        decreases b@.len() - i,
    {
        out.push(b[i]);
        assert(out@ =~= old(out)@ + b@.subrange(0, i + 1));
        i = i + 1;
    }
    assert(b@.subrange(0, b@.len() as int) =~= b@);
}

/// Appends the bytes that write a path to a buffer.
fn push_path(out: &mut Vec<u8>, p: &FsPath)
    ensures
        final(out)@ == old(out)@ + render(p@),
{
    push_bytes(out, &p.to_bytes());
}

impl Error {
    /// The input or output failure under this error, if there is one. Of a failed
    /// recovery it is the recovery's; of a walk failure, the one the walk met.
    pub fn io_error(&self) -> (r: Option<&IoFailure>)
        ensures
            r is Some <==> io_cause(*self) is Some,
            r matches Some(f) ==> io_cause(*self) == Some(*f),
        decreases self,
    {
        match self {
            Error::NotDirectory { .. } => None,
            Error::IoExt { source, .. } => Some(source),
            Error::IoExtMulti { source, .. } => Some(source),
            Error::StripPrefix { .. } => None,
            Error::Recover { recovery, .. } => recovery.io_error(),
            Error::WalkDir { source } => match &source.io {
                Some(f) => Some(f),
                None => None,
            },
        }
    }

    /// The input or output failure under this error, taken out of it.
    pub fn into_io_error(self) -> (r: Option<IoFailure>)
        ensures
            r == io_cause(self),
        decreases self,
    {
        match self {
            Error::NotDirectory { .. } => None,
            Error::IoExt { source, .. } => Some(source),
            Error::IoExtMulti { source, .. } => Some(source),
            Error::StripPrefix { .. } => None,
            Error::Recover { recovery, .. } => recovery.into_io_error(),
            Error::WalkDir { source } => source.io,
        }
    }

    /// The kind of the input or output failure under this error; `Other` where there is
    /// none.
    pub fn io_error_kind(&self) -> (r: IoErrorKind)
        ensures
            r == kind_of(*self),
    {
        match self.io_error() {
            Some(f) => f.kind,
            None => IoErrorKind::Other,
        }
    }

    /// Runs `recover_fn` to clean up after the operation that failed with this error. Where
    /// it succeeds, this error is returned unchanged; where it fails, an error that holds
    /// both failures.
    pub fn recover<F: FnOnce() -> Result<(), Error>>(self, recover_fn: F) -> (r: Error)
        requires
            recover_fn.requires(()),
        ensures
            exists|outcome: Result<(), Error>|
                recover_fn.ensures((), outcome) && r == recovered(self, outcome),
    {
        let ghost failed = self;
        let outcome = recover_fn();
        let ghost got = outcome;
        let r = match outcome {
            Ok(()) => self,
            Err(e) => Error::Recover { operation: Box::new(self), recovery: Box::new(e) },
        };
        assert(recover_fn.ensures((), got) && r == recovered(failed, got));
        r
    }

    /// The message that describes this error, with paths written byte for byte.
    pub fn message(&self) -> (r: Vec<u8>)
        ensures
            r@ == error_text(*self),
    {
        let mut out: Vec<u8> = Vec::new();
        self.write_message(&mut out);
        assert(out@ =~= Seq::<u8>::empty() + error_text(*self));
        out
    }

    /// Appends the message that describes this error to a buffer.
    pub fn write_message(&self, out: &mut Vec<u8>)
        ensures
            final(out)@ == old(out)@ + error_text(*self),
        decreases self,
    {
        let ghost start = out@;
        match self {
            Error::IoExt { source, path, operation } => {
                push_str(out, "A ");
                push_str(out, source.message.as_str());
                push_str(out, " on path ");
                push_path(out, path);
                push_str(out, " failed: ");
                push_str(out, operation.as_str());
            },
            Error::IoExtMulti { source, from, to, operation } => {
                push_str(out, "A ");
                push_str(out, source.message.as_str());
                push_str(out, " from path ");
                push_path(out, from);
                push_str(out, " to path ");
                push_path(out, to);
                push_str(out, " failed: ");
                push_str(out, operation.as_str());
            },
            Error::Recover { operation, recovery } => {
                operation.write_message(out);
                push_str(out, " Tried to recover but it failed: ");
                recovery.write_message(out);
            },
            Error::StripPrefix { target, strip } => {
                push_str(out, "Failed to strip prefix of ");
                push_path(out, target);
                push_str(out, " with ");
                push_path(out, strip);
                push_str(out, ": prefix not found");
            },
            Error::NotDirectory { path } => {
                push_path(out, path);
                push_str(out, " is not a directory");
            },
            Error::WalkDir { source } => {
                push_str(out, "Error walking directory: ");
                push_str(out, source.message.as_str());
            },
        }
        assert(out@ =~= start + error_text(*self));
    }
}

} // verus!
