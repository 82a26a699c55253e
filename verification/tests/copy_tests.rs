use copier::cli::{check_arg_count, entry_step, select_mode, CopyMode, EntryStep, InvocationError,
    SourceKind};
use copier::tree::{copy_into, FsTree};

fn file(bytes: &[u8]) -> FsTree {
    FsTree::File { content: bytes.to_vec() }
}

fn dir(entries: Vec<(&str, FsTree)>) -> FsTree {
    FsTree::Dir { entries: entries.into_iter().map(|(n, t)| (n.to_string(), t)).collect() }
}

fn child<'a>(t: &'a FsTree, name: &str) -> Option<&'a FsTree> {
    match t {
        FsTree::Dir { entries } => entries.iter().find(|(n, _)| n == name).map(|(_, c)| c),
        FsTree::File { .. } => None,
    }
}

fn content(t: &FsTree) -> &Vec<u8> {
    match t {
        FsTree::File { content } => content,
        FsTree::Dir { .. } => panic!("expected a file"),
    }
}

fn names(t: &FsTree) -> Vec<String> {
    match t {
        FsTree::Dir { entries } => {
            let mut ns: Vec<String> = entries.iter().map(|(n, _)| n.clone()).collect();
            ns.sort();
            ns
        }
        FsTree::File { .. } => panic!("expected a directory"),
    }
}

#[test]
fn file_copy_to_fresh_destination() {
    let src = file(b"hello");
    let copied = copy_into(&src, None);
    assert_eq!(content(&copied), b"hello");
    assert_eq!(content(&copied).len(), 5);
    assert_eq!(content(&src), b"hello");
}

#[test]
fn file_copy_overwrites_existing_file() {
    let src = file(b"new bytes");
    let old = file(b"old");
    let copied = copy_into(&src, Some(&old));
    assert_eq!(content(&copied), b"new bytes");
}

#[test]
fn directory_copy_to_fresh_destination() {
    let src = dir(vec![
        ("x.txt", file(b"1")),
        ("nested", dir(vec![("y.txt", file(b"2"))])),
    ]);
    let copied = copy_into(&src, None);
    assert_eq!(names(&copied), vec!["nested".to_string(), "x.txt".to_string()]);
    assert_eq!(content(child(&copied, "x.txt").unwrap()), b"1");
    let nested = child(&copied, "nested").unwrap();
    assert_eq!(names(nested), vec!["y.txt".to_string()]);
    assert_eq!(content(child(nested, "y.txt").unwrap()), b"2");
}

#[test]
fn empty_directory_copy() {
    let src = dir(vec![]);
    let copied = copy_into(&src, None);
    assert_eq!(names(&copied).len(), 0);
}

#[test]
fn copy_twice_matches_copy_once() {
    let src = dir(vec![
        ("a.txt", file(b"alpha")),
        ("sub", dir(vec![("b.txt", file(b"beta"))])),
    ]);
    let dst = dir(vec![("a.txt", file(b"stale")), ("keep.txt", file(b"kept"))]);
    let once = copy_into(&src, Some(&dst));
    let twice = copy_into(&src, Some(&once));
    assert_eq!(names(&once), names(&twice));
    for name in names(&once) {
        let a = child(&once, &name).unwrap();
        let b = child(&twice, &name).unwrap();
        match (a, b) {
            (FsTree::File { content: ca }, FsTree::File { content: cb }) => assert_eq!(ca, cb),
            (FsTree::Dir { .. }, FsTree::Dir { .. }) => {
                assert_eq!(names(a), names(b));
            }
            _ => panic!("kinds differ under {}", name),
        }
    }
}

#[test]
fn unrelated_destination_entries_survive() {
    let src = dir(vec![("x.txt", file(b"1"))]);
    let dst = dir(vec![
        ("keep.txt", file(b"precious")),
        ("x.txt", file(b"stale")),
        ("keepdir", dir(vec![("deep.txt", file(b"deep"))])),
    ]);
    let copied = copy_into(&src, Some(&dst));
    assert_eq!(
        names(&copied),
        vec!["keep.txt".to_string(), "keepdir".to_string(), "x.txt".to_string()]
    );
    assert_eq!(content(child(&copied, "keep.txt").unwrap()), b"precious");
    assert_eq!(content(child(&copied, "x.txt").unwrap()), b"1");
    let keepdir = child(&copied, "keepdir").unwrap();
    assert_eq!(content(child(keepdir, "deep.txt").unwrap()), b"deep");
}

#[test]
fn nested_unrelated_entries_survive() {
    let src = dir(vec![("sub", dir(vec![("new.txt", file(b"new"))]))]);
    let dst = dir(vec![("sub", dir(vec![("old.txt", file(b"old"))]))]);
    let copied = copy_into(&src, Some(&dst));
    let sub = child(&copied, "sub").unwrap();
    assert_eq!(names(sub), vec!["new.txt".to_string(), "old.txt".to_string()]);
    assert_eq!(content(child(sub, "old.txt").unwrap()), b"old");
    assert_eq!(content(child(sub, "new.txt").unwrap()), b"new");
}

#[test]
fn duplicate_reproduces_a_tree() {
    let src = dir(vec![("f", file(b"bytes")), ("d", dir(vec![]))]);
    let copy = src.duplicate();
    assert_eq!(names(&copy), vec!["d".to_string(), "f".to_string()]);
    assert_eq!(content(child(&copy, "f").unwrap()), b"bytes");
}

#[test]
fn wrong_argument_counts_give_usage() {
    for count in [0usize, 1, 2, 4, 5] {
        assert_eq!(check_arg_count(count), Err(InvocationError::Usage));
    }
}

#[test]
fn exact_argument_count_goes_ahead() {
    assert_eq!(check_arg_count(3), Ok(()));
}

#[test]
fn usage_failure_exits_with_code_one() {
    assert_eq!(InvocationError::Usage.exit_code(), 1);
    assert_eq!(InvocationError::BadSource.exit_code(), 1);
}

#[test]
fn file_source_copies_as_a_file() {
    assert_eq!(select_mode(SourceKind::File), Ok(CopyMode::FileCopy));
}

#[test]
fn directory_source_copies_as_a_tree() {
    assert_eq!(select_mode(SourceKind::Dir), Ok(CopyMode::TreeCopy));
}

#[test]
fn missing_or_special_source_is_refused() {
    assert_eq!(select_mode(SourceKind::Other), Err(InvocationError::BadSource));
}

#[test]
fn traversal_steps_by_entry_kind() {
    assert_eq!(entry_step(SourceKind::File), EntryStep::CopyBytes);
    assert_eq!(entry_step(SourceKind::Dir), EntryStep::Recurse);
    assert_eq!(entry_step(SourceKind::Other), EntryStep::Skip);
}
