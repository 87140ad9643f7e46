use more_fs::{change_dir, in_same_dir, try_in_same_dir, Error, FsPath};

fn p(s: &str) -> FsPath {
    FsPath::new(s)
}

fn text(path: &FsPath) -> String {
    String::from_utf8(path.to_bytes()).unwrap()
}

fn all_true(values: &[bool]) -> bool {
    values.iter().all(|b| *b)
}

#[test]
fn test_same_dir() {
    let path1 = "/home/person/dir/hello.txt";
    let path2 = "/home/person/dir/goodbye.txt";

    assert!(in_same_dir(&p(path1), &p(path2)));
}

#[test]
fn in_same_dir_root_test() {
    let path1 = "/";
    let path2 = "/";

    assert!(!in_same_dir(&p(path1), &p(path2)));
}

#[test]
fn in_same_dir_same_test() {
    let path1 = "/home/person";
    let path2 = "/home/person";

    assert!(in_same_dir(&p(path1), &p(path2)));
}

#[test]
fn test_dir_assert_macro_test() {
    assert!(all_true(&[true, true]));
}

#[test]
fn macros_assert_macro_test() {
    assert!(all_true(&[true, true]));
    assert!(!all_true(&[true, true, false, true]));
}

#[test]
fn different_dirs_are_not_the_same() {
    assert!(!in_same_dir(&p("/home/a/x"), &p("/home/b/x")));
    assert_eq!(try_in_same_dir(&p("/"), &p("/a")), None);
    assert_eq!(try_in_same_dir(&p("/a"), &p("/b")), Some(true));
    assert_eq!(try_in_same_dir(&p(""), &p("a")), None);
}

#[test]
fn parse_reads_components() {
    let path = p("/home//person/./dir/");
    assert_eq!(path.len(), 4);
    assert_eq!(path.component(0), b"/".to_vec());
    assert_eq!(path.component(1), b"home".to_vec());
    assert_eq!(path.component(2), b"person".to_vec());
    assert_eq!(path.component(3), b"dir".to_vec());
    assert!(path.is_absolute());
    assert_eq!(text(&path), "/home/person/dir");
}

#[test]
fn parse_keeps_a_leading_dot_only() {
    let path = p("./a/./b");
    assert_eq!(path.len(), 3);
    assert_eq!(path.component(0), b".".to_vec());
    assert_eq!(text(&path), "./a/b");
    assert!(!path.is_absolute());
    assert_eq!(p("..").len(), 1);
    assert_eq!(p(".hidden").component(0), b".hidden".to_vec());
    assert_eq!(p("").len(), 0);
    assert_eq!(text(&p("/")), "/");
}

#[test]
fn parse_takes_any_bytes() {
    let path = FsPath::from_bytes(&[0xff, b'/', 0x80, 0x81]);
    assert_eq!(path.len(), 2);
    assert_eq!(path.to_bytes(), vec![0xff, b'/', 0x80, 0x81]);
}

#[test]
fn parent_of_paths() {
    assert_eq!(text(&p("/home/person").parent().unwrap()), "/home");
    assert_eq!(text(&p("/home").parent().unwrap()), "/");
    assert!(p("/").parent().is_none());
    assert!(p("").parent().is_none());
    assert_eq!(p("file").parent().unwrap().len(), 0);
    assert_eq!(p(".").parent().unwrap().len(), 0);
}

#[test]
fn strip_prefix_by_components() {
    let rest = p("/a/b/c").strip_prefix(&p("/a/")).unwrap();
    assert_eq!(text(&rest), "b/c");
    assert!(p("/ab/c").strip_prefix(&p("/a")).is_none());
    assert!(p("/a").strip_prefix(&p("/a/b")).is_none());
    assert_eq!(p("/a").strip_prefix(&p("/a")).unwrap().len(), 0);
}

#[test]
fn join_rules() {
    assert_eq!(text(&p("to").join(&p("b/c"))), "to/b/c");
    assert_eq!(text(&p("to").join(&p("/abs"))), "/abs");
    assert_eq!(text(&p("to").join(&p("./x"))), "to/x");
    assert_eq!(text(&p("").join(&p("./x"))), "./x");
    assert_eq!(text(&p("to").join(&p(""))), "to");
}

#[test]
fn same_as_and_clone() {
    let a = p("/x/y");
    assert!(a.same_as(&a.clone()));
    assert!(a.same_as(&p("/x//y/")));
    assert!(!a.same_as(&p("x/y")));
}

#[test]
fn change_dir_moves_under_new_root() {
    let moved = change_dir(&p("/src/a"), &p("/dst"), &p("/src/a/b/c/file1")).unwrap();
    assert_eq!(text(&moved), "/dst/b/c/file1");
    let root = change_dir(&p("/src/a"), &p("/dst"), &p("/src/a")).unwrap();
    assert_eq!(text(&root), "/dst");
}

#[test]
fn change_dir_outside_root_fails() {
    match change_dir(&p("/src/a"), &p("/dst"), &p("/other/b")) {
        Err(Error::StripPrefix { target, strip }) => {
            assert_eq!(text(&target), "/other/b");
            assert_eq!(text(&strip), "/src/a");
        }
        other => panic!("unexpected {:?}", other),
    }
}

#[test]
fn written_path_reads_back_the_same() {
    for s in ["/", "", ".", "./a/b", "/x//y/./z/", "a/../b", "..", ".hidden/x"] {
        let path = p(s);
        assert!(FsPath::from_bytes(&path.to_bytes()).same_as(&path), "{}", s);
    }
}
