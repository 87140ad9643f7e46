use more_fs::{
    check_source, copy_create_steps, move_file_steps, Error, FsPath, IoErrorKind, IoFailure,
    Job, Operation, ParallelCopy, Step, Tally, TreeCopy, WalkEntry, WalkFailure,
};

fn p(s: &str) -> FsPath {
    FsPath::new(s)
}

fn text(path: &FsPath) -> String {
    String::from_utf8(path.to_bytes()).unwrap()
}

fn entry(path: &str, is_dir: bool) -> Result<WalkEntry, WalkFailure> {
    Ok(WalkEntry { path: p(path), is_dir })
}

fn describe(step: &Step) -> String {
    match step {
        Step::CreateDir(d) => format!("mkdir {}", text(d)),
        Step::CreateDirAll(d) => format!("mkdir -p {}", text(d)),
        Step::RemoveFile(d) => format!("rm {}", text(d)),
        Step::RemoveDirAll(d) => format!("rm -r {}", text(d)),
        Step::Copy { from, to } => format!("cp {} {}", text(from), text(to)),
    }
}

fn describe_job(job: &Job) -> String {
    match job {
        Job::MakeDirAll(d) => format!("mkdir -p {}", text(d)),
        Job::CopyCreate { from, to } => format!("cp --parents {} {}", text(from), text(to)),
    }
}

fn failure(kind: IoErrorKind) -> IoFailure {
    IoFailure { kind, message: String::from("failed") }
}

/// The walk of `a` with `a/b/c/file1` (512 bytes) and `a/empty_dir`, parents first.
fn walk_of_a() -> Vec<(&'static str, bool, u64)> {
    vec![
        ("/t/a", true, 0),
        ("/t/a/b", true, 0),
        ("/t/a/b/c", true, 0),
        ("/t/a/b/c/file1", false, 512),
        ("/t/a/empty_dir", true, 0),
    ]
}

#[test]
fn copy_tree_example_steps() {
    let mut tree = TreeCopy::start(p("/t/a"), p("/t/moved"), true, true).unwrap();
    let mut seen = Vec::new();
    for (path, is_dir, bytes) in walk_of_a() {
        let step = tree.step_for(entry(path, is_dir)).unwrap();
        seen.push(describe(&step));
        assert!(tree.has_room(bytes));
        tree.record(step, Ok(bytes)).unwrap();
    }
    assert_eq!(
        seen,
        vec![
            "mkdir /t/moved",
            "mkdir /t/moved/b",
            "mkdir /t/moved/b/c",
            "cp /t/a/b/c/file1 /t/moved/b/c/file1",
            "mkdir /t/moved/empty_dir",
        ]
    );
    assert_eq!(tree.copied(), 512);
    assert_eq!(describe(&tree.removal()), "rm -r /t/a");
}

#[test]
fn copy_tree_counts_every_file() {
    let mut tree = TreeCopy::start(p("src"), p("dst"), true, true).unwrap();
    let walk = [("src", true, 0u64), ("src/x", false, 10), ("src/d", true, 0), ("src/d/y", false, 32)];
    for (path, is_dir, bytes) in walk {
        let step = tree.step_for(entry(path, is_dir)).unwrap();
        tree.record(step, Ok(bytes)).unwrap();
    }
    assert_eq!(tree.copied(), 42);
}

#[test]
fn directory_steps_add_no_bytes() {
    let mut tally = Tally::new();
    tally.record(Step::CreateDir(p("d")), Ok(99)).unwrap();
    tally.record(Step::Copy { from: p("a"), to: p("b") }, Ok(7)).unwrap();
    assert_eq!(tally.copied(), 7);
    assert!(tally.has_room(u64::MAX - 7));
    assert!(!tally.has_room(u64::MAX - 6));
}

#[test]
fn copy_tree_stops_at_first_failure() {
    let mut tree = TreeCopy::start(p("src"), p("dst"), true, true).unwrap();
    let step = tree.step_for(entry("src", true)).unwrap();
    tree.record(step, Ok(0)).unwrap();
    let step = tree.step_for(entry("src/f", false)).unwrap();
    match tree.record(step, Err(failure(IoErrorKind::PermissionDenied))) {
        Err(Error::IoExtMulti { from, to, operation, source }) => {
            assert_eq!(text(&from), "src/f");
            assert_eq!(text(&to), "dst/f");
            assert_eq!(operation, Operation::Copy);
            assert_eq!(source.kind, IoErrorKind::PermissionDenied);
        }
        other => panic!("unexpected {:?}", other),
    }
    assert!(tree.failed());
}

#[test]
fn failed_directory_creation_names_the_path() {
    let mut tree = TreeCopy::start(p("src"), p("dst"), true, true).unwrap();
    let step = tree.step_for(entry("src", true)).unwrap();
    match tree.record(step, Err(failure(IoErrorKind::AlreadyExists))) {
        Err(Error::IoExt { path, operation, .. }) => {
            assert_eq!(text(&path), "dst");
            assert_eq!(operation, Operation::Create);
        }
        other => panic!("unexpected {:?}", other),
    }
}

#[test]
fn walk_failure_is_reported() {
    let mut tree = TreeCopy::start(p("src"), p("dst"), true, true).unwrap();
    let walk = Err(WalkFailure { io: Some(failure(IoErrorKind::PermissionDenied)), message: String::from("x") });
    match tree.step_for(walk) {
        Err(e @ Error::WalkDir { .. }) => assert_eq!(e.io_error_kind(), IoErrorKind::PermissionDenied),
        other => panic!("unexpected {:?}", other),
    }
    assert!(tree.failed());
}

#[test]
fn entry_outside_root_is_reported() {
    let mut tree = TreeCopy::start(p("src"), p("dst"), true, true).unwrap();
    match tree.step_for(entry("elsewhere/f", false)) {
        Err(Error::StripPrefix { target, strip }) => {
            assert_eq!(text(&target), "elsewhere/f");
            assert_eq!(text(&strip), "src");
        }
        other => panic!("unexpected {:?}", other),
    }
}

#[test]
fn source_must_exist() {
    match TreeCopy::start(p("/missing"), p("/dst"), false, false) {
        Err(e @ Error::IoExt { .. }) => {
            assert_eq!(e.io_error_kind(), IoErrorKind::NotFound);
            match e {
                Error::IoExt { path, operation, .. } => {
                    assert_eq!(text(&path), "/missing");
                    assert_eq!(operation, Operation::CopyDirAll);
                }
                _ => unreachable!(),
            }
        }
        other => panic!("unexpected {:?}", other.map(|_| ())),
    }
}

#[test]
fn source_must_be_a_directory() {
    match check_source(&p("/file"), true, false) {
        Err(Error::NotDirectory { path }) => assert_eq!(text(&path), "/file"),
        other => panic!("unexpected {:?}", other),
    }
    assert!(check_source(&p("/dir"), true, true).is_ok());
    assert!(ParallelCopy::start(p("/file"), p("/dst"), true, false).is_err());
}

#[test]
fn parallel_jobs_match_sequential_steps() {
    let mut par = ParallelCopy::start(p("/t/a"), p("/t/moved"), true, true).unwrap();
    let mut tree = TreeCopy::start(p("/t/a"), p("/t/moved"), true, true).unwrap();
    let mut sequential = Vec::new();
    for (path, is_dir, bytes) in walk_of_a() {
        par.collect(entry(path, is_dir)).unwrap();
        let step = tree.step_for(entry(path, is_dir)).unwrap();
        sequential.push(describe(&step));
        tree.record(step, Ok(bytes)).unwrap();
    }
    let jobs: Vec<String> = par.jobs().unwrap().iter().map(describe_job).collect();
    assert_eq!(
        jobs,
        vec![
            "mkdir -p /t/moved",
            "mkdir -p /t/moved/b",
            "mkdir -p /t/moved/b/c",
            "cp --parents /t/a/b/c/file1 /t/moved/b/c/file1",
            "mkdir -p /t/moved/empty_dir",
        ]
    );
    assert_eq!(sequential[3], "cp /t/a/b/c/file1 /t/moved/b/c/file1");
    assert!(par.finish(Ok(())).is_ok());
    assert_eq!(describe(&par.removal()), "rm -r /t/a");
}

#[test]
fn parallel_walk_failure_ends_before_any_job() {
    let mut par = ParallelCopy::start(p("src"), p("dst"), true, true).unwrap();
    par.collect(entry("src", true)).unwrap();
    let walk = Err(WalkFailure { io: None, message: String::from("loop") });
    assert!(!par.failed());
    assert!(matches!(par.collect(walk), Err(Error::WalkDir { .. })));
    assert!(par.failed());
}

#[test]
fn parallel_entry_outside_root_is_reported() {
    let mut par = ParallelCopy::start(p("src"), p("dst"), true, true).unwrap();
    par.collect(entry("src", true)).unwrap();
    par.collect(entry("other/f", false)).unwrap();
    match par.jobs() {
        Err(Error::StripPrefix { target, .. }) => assert_eq!(text(&target), "other/f"),
        other => panic!("unexpected {:?}", other),
    }
    assert!(par.failed());
}

#[test]
fn job_failure_ends_parallel_copy() {
    let mut par = ParallelCopy::start(p("src"), p("dst"), true, true).unwrap();
    par.collect(entry("src", true)).unwrap();
    par.jobs().unwrap();
    let failed = Step::CreateDirAll(p("dst")).settle(Err(failure(IoErrorKind::PermissionDenied)));
    let outcome = par.finish(failed.map(|_| ()));
    assert!(matches!(outcome, Err(Error::IoExt { operation: Operation::CreatePathAll, .. })));
    assert!(par.failed());
}

#[test]
fn job_steps() {
    let dir = Job::MakeDirAll(p("dst/d"));
    let steps: Vec<String> = dir.steps(false).iter().map(describe).collect();
    assert_eq!(steps, vec!["mkdir -p dst/d"]);
    let file = Job::CopyCreate { from: p("src/d/f"), to: p("dst/d/f") };
    let steps: Vec<String> = file.steps(false).iter().map(describe).collect();
    assert_eq!(steps, vec!["mkdir -p dst/d", "cp src/d/f dst/d/f"]);
    let steps: Vec<String> = file.steps(true).iter().map(describe).collect();
    assert_eq!(steps, vec!["cp src/d/f dst/d/f"]);
}

#[test]
fn copy_create_creates_missing_parent() {
    let steps: Vec<String> =
        copy_create_steps(&p("/t/from"), &p("/t/a_dir/another_dir/to"), false).iter().map(describe).collect();
    assert_eq!(steps, vec!["mkdir -p /t/a_dir/another_dir", "cp /t/from /t/a_dir/another_dir/to"]);
}

#[test]
fn copy_create_skips_existing_parent() {
    let steps: Vec<String> =
        copy_create_steps(&p("/t/from"), &p("/t/to"), true).iter().map(describe).collect();
    assert_eq!(steps, vec!["cp /t/from /t/to"]);
}

#[test]
fn move_file_copies_then_removes() {
    let steps: Vec<String> =
        move_file_steps(&p("/t/from"), &p("/t/moved"), true).iter().map(describe).collect();
    assert_eq!(steps, vec!["cp /t/from /t/moved", "rm /t/from"]);
}

#[test]
fn failed_copy_of_a_move_leaves_the_source() {
    let mut tally = Tally::new();
    let mut steps = move_file_steps(&p("/t/from"), &p("/t/moved"), true).into_iter();
    let copy = steps.next().unwrap();
    let r = tally.record(copy, Err(failure(IoErrorKind::NotFound)));
    assert!(matches!(r, Err(Error::IoExtMulti { .. })));
    // The caller stops here: the removal that follows is never performed.
    assert_eq!(describe(&steps.next().unwrap()), "rm /t/from");
}

#[test]
fn settle_maps_each_step_to_its_error() {
    let cases = vec![
        (Step::CreateDir(p("d")), Operation::Create),
        (Step::CreateDirAll(p("d")), Operation::CreatePathAll),
        (Step::RemoveFile(p("d")), Operation::Remove),
        (Step::RemoveDirAll(p("d")), Operation::RemoveDirAll),
    ];
    for (step, op) in cases {
        match step.settle(Err(failure(IoErrorKind::Other))) {
            Err(Error::IoExt { operation, path, .. }) => {
                assert_eq!(operation, op);
                assert_eq!(text(&path), "d");
            }
            other => panic!("unexpected {:?}", other),
        }
    }
    assert_eq!(Step::Copy { from: p("a"), to: p("b") }.settle(Ok(5)).unwrap(), 5);
    assert_eq!(Step::CreateDirAll(p("a")).settle(Ok(5)).unwrap(), 0);
}
