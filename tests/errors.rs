use more_fs::{Error, FsPath, IoErrorKind, IoFailure, Operation, WalkFailure};

fn failure(kind: IoErrorKind, message: &str) -> IoFailure {
    IoFailure { kind, message: message.to_string() }
}

fn one_path(kind: IoErrorKind, path: &str, operation: Operation) -> Error {
    Error::IoExt { source: failure(kind, "no such file"), path: FsPath::new(path), operation }
}

fn message(e: &Error) -> String {
    String::from_utf8(e.message()).unwrap()
}

#[test]
fn operation_names() {
    assert_eq!(Operation::Remove.as_str(), "remove");
    assert_eq!(Operation::RemoveDirAll.as_str(), "remove dir all");
    assert_eq!(Operation::Create.as_str(), "create");
    assert_eq!(Operation::CreatePathAll.as_str(), "create path all");
    assert_eq!(Operation::Move.as_str(), "move");
    assert_eq!(Operation::MoveDirAll.as_str(), "move dir all");
    assert_eq!(Operation::Copy.as_str(), "copy");
    assert_eq!(Operation::CopyDirAll.as_str(), "copy dir all");
}

#[test]
fn messages_name_paths_and_operation() {
    let e = one_path(IoErrorKind::NotFound, "/a/b", Operation::Remove);
    assert_eq!(message(&e), "A no such file on path /a/b failed: remove");
    let e = Error::IoExtMulti {
        source: failure(IoErrorKind::PermissionDenied, "denied"),
        from: FsPath::new("x"),
        to: FsPath::new("y/z"),
        operation: Operation::Copy,
    };
    assert_eq!(message(&e), "A denied from path x to path y/z failed: copy");
    let e = Error::NotDirectory { path: FsPath::new("/f") };
    assert_eq!(message(&e), "/f is not a directory");
    let e = Error::StripPrefix { target: FsPath::new("/o"), strip: FsPath::new("/s") };
    assert_eq!(message(&e), "Failed to strip prefix of /o with /s: prefix not found");
    let e = Error::WalkDir { source: WalkFailure { io: None, message: "loop".to_string() } };
    assert_eq!(message(&e), "Error walking directory: loop");
}

#[test]
fn io_error_of_each_variant() {
    let e = one_path(IoErrorKind::NotFound, "/a", Operation::Create);
    assert_eq!(e.io_error().unwrap().kind, IoErrorKind::NotFound);
    assert_eq!(e.io_error_kind(), IoErrorKind::NotFound);
    assert_eq!(e.into_io_error().unwrap().message, "no such file");

    let e = Error::NotDirectory { path: FsPath::new("/f") };
    assert!(e.io_error().is_none());
    assert_eq!(e.io_error_kind(), IoErrorKind::Other);

    let e = Error::WalkDir {
        source: WalkFailure {
            io: Some(failure(IoErrorKind::PermissionDenied, "denied")),
            message: "walk".to_string(),
        },
    };
    assert_eq!(e.io_error_kind(), IoErrorKind::PermissionDenied);
    assert_eq!(e.into_io_error().unwrap().message, "denied");
}

#[test]
fn recover_success_returns_original() {
    let e = one_path(IoErrorKind::NotFound, "/a", Operation::CopyDirAll);
    let r = e.recover(|| Ok(()));
    match r {
        Error::IoExt { path, operation, .. } => {
            assert_eq!(path.to_bytes(), b"/a".to_vec());
            assert_eq!(operation, Operation::CopyDirAll);
        }
        other => panic!("unexpected {:?}", other),
    }
}

#[test]
fn recover_failure_holds_both() {
    let e = one_path(IoErrorKind::NotFound, "/a", Operation::Copy);
    let r = e.recover(|| Err(one_path(IoErrorKind::PermissionDenied, "/b", Operation::RemoveDirAll)));
    match &r {
        Error::Recover { operation, recovery } => {
            assert_eq!(operation.io_error_kind(), IoErrorKind::NotFound);
            assert_eq!(recovery.io_error_kind(), IoErrorKind::PermissionDenied);
        }
        other => panic!("unexpected {:?}", other),
    }
    assert_eq!(r.io_error_kind(), IoErrorKind::PermissionDenied);
    assert_eq!(
        message(&r),
        "A no such file on path /a failed: copy Tried to recover but it failed: \
         A no such file on path /b failed: remove dir all"
    );
}
