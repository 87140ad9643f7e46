use vstd::prelude::*;
use crate::error::{Error, WalkFailure};
use crate::path::{has_prefix, FsPath};
use crate::remap::{change_dir, is_strip_error, remapped};
use crate::step::{copy_create_plan, copy_create_steps, step_views, Step, StepView};
use crate::tree::{check_source, is_source_error, sequential_step, WalkEntry};

verus! {

/// A piece of work of a parallel copy. Each can run on any worker in any order: a directory
/// is created with its missing ancestors, and a file is copied after the directory that
/// holds it was made sure of, so that no job waits for another.
#[derive(Debug)]
pub enum Job {
    /// Create the directory and each missing ancestor; one already there is no error.
    MakeDirAll(FsPath),
    /// Copy the file `from` to `to`, creating the directory of `to` first where it is
    /// missing.
    CopyCreate { from: FsPath, to: FsPath },
}

/// A job with its paths as components.
pub enum JobView {
    MakeDirAll(Seq<Seq<u8>>),
    CopyCreate(Seq<Seq<u8>>, Seq<Seq<u8>>),
}

impl View for Job {
    type V = JobView;

    open spec fn view(&self) -> JobView {
        match self {
            Job::MakeDirAll(p) => JobView::MakeDirAll(p@),
            Job::CopyCreate { from, to } => JobView::CopyCreate(from@, to@),
        }
    }
}

impl Job {
    /// The steps that perform this job, in order: the creation of a directory with its
    /// ancestors; or the steps of `copy_create_steps`, given whether the directory that
    /// will hold the copy exists.
    pub fn steps(&self, parent_exists: bool) -> (r: Vec<Step>)
        ensures
            step_views(r@) == match self@ {
                JobView::MakeDirAll(p) => seq![StepView::CreateDirAll(p)],
                JobView::CopyCreate(f, t) => copy_create_plan(f, t, parent_exists),
            },
    {
        match self {
            Job::MakeDirAll(p) => {
                let mut r: Vec<Step> = Vec::new();
                r.push(Step::CreateDirAll(p.duplicate()));
                assert(step_views(r@) =~= seq![StepView::CreateDirAll(p@)]);
                r
            },
            Job::CopyCreate { from, to } => copy_create_steps(from, to, parent_exists),
        }
    }
}

/// The job that replicates a walked entry in a parallel copy. `None` where the entry does
/// not lie under `from`.
pub open spec fn parallel_job(
    from: Seq<Seq<u8>>,
    to: Seq<Seq<u8>>,
    path: Seq<Seq<u8>>,
    is_dir: bool,
) -> Option<JobView> {
    match remapped(from, to, path) {
        Some(dest) => Some(
            if is_dir {
                JobView::MakeDirAll(dest)
            } else {
                JobView::CopyCreate(path, dest)
            },
        ),
        None => None,
    }
}

/// Whether every collected entry lies under `from`.
pub open spec fn all_under(from: Seq<Seq<u8>>, entries: Seq<(Seq<Seq<u8>>, bool)>) -> bool {
    forall|i: int| 0 <= i < entries.len() ==> has_prefix(#[trigger] entries[i].0, from)
}

/// The entries that a walk produced, as paths and directory flags.
pub open spec fn entry_views(v: Seq<WalkEntry>) -> Seq<(Seq<Seq<u8>>, bool)> {
    v.map_values(|e: WalkEntry| (e.path@, e.is_dir))
}

/// Copies a tree in parallel. The caller checks the root, hands over the whole walk first,
/// then runs the jobs on a pool of workers in any order; the first error of any of them
/// ends the copy.
pub struct ParallelCopy {
    from: FsPath,
    to: FsPath,
    entries: Vec<WalkEntry>,
    failed: bool,
    finished: bool,
}

impl ParallelCopy {
    /// The root of the tree that is copied.
    pub closed spec fn source(&self) -> Seq<Seq<u8>> {
        self.from@
    }

    /// Where the tree is copied to.
    pub closed spec fn dest(&self) -> Seq<Seq<u8>> {
        self.to@
    }

    /// The entries handed over so far, in the walk's order.
    pub closed spec fn collected(&self) -> Seq<(Seq<Seq<u8>>, bool)> {
        entry_views(self.entries@)
    }

    /// Whether the copy has ended with an error.
    pub closed spec fn has_failed(&self) -> bool {
        self.failed
    }

    /// Whether the outcome of the jobs was handed back.
    pub closed spec fn has_finished(&self) -> bool {
        self.finished
    }

    /// A copy of `from` to `to` that has collected no entry yet.
    pub open spec fn is_fresh(&self, from: Seq<Seq<u8>>, to: Seq<Seq<u8>>) -> bool {
        &&& self.source() == from
        &&& self.dest() == to
        &&& self.collected() == Seq::<(Seq<Seq<u8>>, bool)>::empty()
        &&& !self.has_failed()
        &&& !self.has_finished()
    }

    /// Whether the copy has ended with an error.
    pub fn failed(&self) -> (r: bool)
        ensures
            r == self.has_failed(),
    {
        self.failed
    }

    /// Starts a parallel copy of `from` to `to`, given whether `from` exists and is a
    /// directory.
    pub fn start(from: FsPath, to: FsPath, exists: bool, is_dir: bool) -> (r: Result<
        ParallelCopy,
        Error,
    >)
        ensures
            r is Ok <==> exists && is_dir,
            r matches Ok(t) ==> t.is_fresh(from@, to@),
            r matches Err(e) ==> is_source_error(e, from@, exists),
    {
        match check_source(&from, exists, is_dir) {
            Ok(()) => {
                let entries: Vec<WalkEntry> = Vec::new();
                assert(entry_views(entries@) =~= Seq::<(Seq<Seq<u8>>, bool)>::empty());
                Ok(ParallelCopy { from, to, entries, failed: false, finished: false })
            },
            Err(e) => Err(e),
        }
    }

    /// Takes what the walk produced next: an entry is kept; a walk failure is returned as
    /// `Error::WalkDir` and ends the copy before any job ran.
    pub fn collect(&mut self, entry: Result<WalkEntry, WalkFailure>) -> (r: Result<(), Error>)
        requires
            !old(self).has_failed(),
            !old(self).has_finished(),
        ensures
            final(self).source() == old(self).source(),
            final(self).dest() == old(self).dest(),
            final(self).has_failed() == r is Err,
            !final(self).has_finished(),
            match entry {
                Err(f) => r == Err::<(), Error>(Error::WalkDir { source: f })
                    && final(self).collected() == old(self).collected(),
                Ok(e) => r is Ok && final(self).collected() == old(self).collected().push(
                    (e.path@, e.is_dir),
                ),
            },
    {
        match entry {
            Err(f) => {
                self.failed = true;
                Err(Error::WalkDir { source: f })
            },
            Ok(e) => {
                let ghost before = self.entries@;
                let ghost v = (e.path@, e.is_dir);
                self.entries.push(e);
                assert(entry_views(self.entries@) =~= entry_views(before).push(v));
                Ok(())
            },
        }
    }

    /// The jobs for the entries collected, one for each, in the same order. Fails with
    /// `Error::StripPrefix` for the first entry that does not lie under the root, which
    /// ends the copy.
    pub fn jobs(&mut self) -> (r: Result<Vec<Job>, Error>)
        requires
            !old(self).has_failed(),
            !old(self).has_finished(),
        ensures
            final(self).source() == old(self).source(),
            final(self).dest() == old(self).dest(),
            final(self).collected() == old(self).collected(),
            final(self).has_failed() == r is Err,
            !final(self).has_finished(),
            r is Ok <==> all_under(old(self).source(), old(self).collected()),
            r matches Ok(js) ==> js@.len() == old(self).collected().len() && forall|i: int|
                0 <= i < js@.len() ==> parallel_job(
                    old(self).source(),
                    old(self).dest(),
                    old(self).collected()[i].0,
                    old(self).collected()[i].1,
                ) == Some(#[trigger] js@[i]@),
            r matches Err(e) ==> exists|i: int|
                0 <= i < old(self).collected().len() && is_strip_error(
                    e,
                    #[trigger] old(self).collected()[i].0,
                    old(self).source(),
                ),
    {
        let r = self.plan_jobs();
        if r.is_err() {
            self.failed = true;
        }
        r
    }

    /// The jobs for the entries collected, or the error for the first entry outside the
    /// root.
    fn plan_jobs(&self) -> (r: Result<Vec<Job>, Error>)
        ensures
            r is Ok <==> all_under(self.source(), self.collected()),
            r matches Ok(js) ==> js@.len() == self.collected().len() && forall|i: int|
                0 <= i < js@.len() ==> parallel_job(
                    self.source(),
                    self.dest(),
                    self.collected()[i].0,
                    self.collected()[i].1,
                ) == Some(#[trigger] js@[i]@),
            r matches Err(e) ==> exists|i: int|
                0 <= i < self.collected().len() && is_strip_error(
                    e,
                    #[trigger] self.collected()[i].0,
                    self.source(),
                ),
    {
        let ghost c = self.collected();
        let ghost from = self.source();
        let ghost to = self.dest();
        let mut js: Vec<Job> = Vec::new();
        let mut i: usize = 0;
        while i < self.entries.len()
            invariant
                c == entry_views(self.entries@),
                from == self.from@,
                to == self.to@,
                0 <= i <= c.len(),
                js@.len() == i,
                forall|k: int| 0 <= k < i ==> parallel_job(from, to, c[k].0, c[k].1) == Some(
                    #[trigger] js@[k]@,
                ),
                forall|k: int| 0 <= k < i ==> has_prefix(#[trigger] c[k].0, from),
            decreases c.len() - i,
        {
            let e = &self.entries[i];
            assert(c[i as int] == (e.path@, e.is_dir));
            match change_dir(&self.from, &self.to, &e.path) {
                Ok(dest) => {
                    let job = if e.is_dir {
                        Job::MakeDirAll(dest)
                    } else {
                        Job::CopyCreate { from: e.path.duplicate(), to: dest }
                    };
                    js.push(job);
                },
                Err(err) => {
                    assert(!has_prefix(c[i as int].0, from));
                    return Err(err);
                },
            }
            i = i + 1;
        }
        Ok(js)
    }

    /// Takes the outcome of the jobs: the first error of any of them, or success. Either
    /// way the copy is finished; an error ends it.
    pub fn finish(&mut self, outcome: Result<(), Error>) -> (r: Result<(), Error>)
        requires
            !old(self).has_failed(),
            !old(self).has_finished(),
        ensures
            final(self).source() == old(self).source(),
            final(self).dest() == old(self).dest(),
            final(self).collected() == old(self).collected(),
            final(self).has_finished(),
            final(self).has_failed() == outcome is Err,
            r == outcome,
    {
        self.finished = true;
        if outcome.is_err() {
            self.failed = true;
        }
        outcome
    }

    /// The step that removes the source tree, once every job succeeded, to complete a
    /// move.
    pub fn removal(&self) -> (r: Step)
        requires
            self.has_finished(),
            !self.has_failed(),
        ensures
            r@ == StepView::RemoveDirAll(self.source()),
    {
        Step::RemoveDirAll(self.from.duplicate())
    }
}

/// A parallel copy replicates each entry where a copy one entry at a time does: a
/// directory at the same destination, a file from the same source to the same
/// destination, and neither for an entry outside the root. What differs is only how each
/// is made safe to run out of order.
pub proof fn lemma_parallel_matches_sequential(
    from: Seq<Seq<u8>>,
    to: Seq<Seq<u8>>,
    path: Seq<Seq<u8>>,
    is_dir: bool,
)
    ensures
        match (sequential_step(from, to, path, is_dir), parallel_job(from, to, path, is_dir)) {
            (Some(StepView::CreateDir(d)), Some(JobView::MakeDirAll(d2))) => d == d2,
            (Some(StepView::Copy(s, d)), Some(JobView::CopyCreate(s2, d2))) => s == s2 && d == d2,
            (None, None) => true,
            _ => false,
        },
{
}

} // verus!
