use brioche::directory::{Directory, DirectoryError};
use brioche::hashing::BlobHash;
use brioche::value::{CompleteValue, FileValue, WithMeta};

fn file_node(content: &[u8]) -> WithMeta<CompleteValue> {
    WithMeta::new(CompleteValue::File(FileValue {
        content: BlobHash::for_content(content),
        executable: false,
        resources: Directory::empty(),
    }))
}

fn symlink_node(target: &[u8]) -> WithMeta<CompleteValue> {
    WithMeta::new(CompleteValue::Symlink {
        target: target.to_vec(),
    })
}

fn names_of(d: &Directory) -> Vec<Vec<u8>> {
    let mut names = Vec::new();
    for i in 0..d.entry_count() {
        names.push(d.entry_at(i).name.clone());
    }
    names
}

#[test]
fn empty_directory_has_no_entries() {
    let d = Directory::empty();
    assert_eq!(d.entry_count(), 0);
    assert!(d.get(b"anything").is_none());
}

#[test]
fn insert_then_get() {
    let mut d = Directory::empty();
    d.insert(b"hello.txt", file_node(b"hello")).unwrap();
    let node = d.get(b"hello.txt").expect("inserted entry must be found");
    match &node.value {
        CompleteValue::File(f) => {
            assert!(f.content.same_as(&BlobHash::for_content(b"hello")));
            assert!(!f.executable);
        }
        _ => panic!("expected a file"),
    }
    assert!(d.get(b"other").is_none());
}

#[test]
fn iteration_is_sorted_by_key() {
    let mut d = Directory::empty();
    d.insert(b"bravo", file_node(b"1")).unwrap();
    d.insert(b"alpha", file_node(b"2")).unwrap();
    d.insert(b"delta", file_node(b"3")).unwrap();
    d.insert(b"charlie", file_node(b"4")).unwrap();
    assert_eq!(
        names_of(&d),
        vec![
            b"alpha".to_vec(),
            b"bravo".to_vec(),
            b"charlie".to_vec(),
            b"delta".to_vec()
        ]
    );
}

#[test]
fn insert_overwrites_existing_entry() {
    let mut d = Directory::empty();
    d.insert(b"name", file_node(b"old")).unwrap();
    d.insert(b"name", file_node(b"new")).unwrap();
    assert_eq!(d.entry_count(), 1);
    match &d.get(b"name").unwrap().value {
        CompleteValue::File(f) => {
            assert!(f.content.same_as(&BlobHash::for_content(b"new")));
        }
        _ => panic!("expected a file"),
    }
}

#[test]
fn insert_creates_intermediate_directories() {
    let mut d = Directory::empty();
    d.insert(b"test/hello/hi.txt", file_node(b"hello")).unwrap();
    let test = d.get(b"test").expect("intermediate directory created");
    let hello = match &test.value {
        CompleteValue::Directory(sub) => sub.get(b"hello").expect("nested directory created"),
        _ => panic!("expected a directory"),
    };
    match &hello.value {
        CompleteValue::Directory(sub) => {
            assert!(sub.get(b"hi.txt").is_some());
        }
        _ => panic!("expected a directory"),
    }
}

#[test]
fn insert_rejects_invalid_components() {
    let mut d = Directory::empty();
    assert!(matches!(
        d.insert(b"", file_node(b"x")),
        Err(DirectoryError::InvalidPath)
    ));
    assert!(matches!(
        d.insert(b"a//b", file_node(b"x")),
        Err(DirectoryError::InvalidPath)
    ));
    assert!(matches!(
        d.insert(b"./a", file_node(b"x")),
        Err(DirectoryError::InvalidPath)
    ));
    assert!(matches!(
        d.insert(b"a/../b", file_node(b"x")),
        Err(DirectoryError::InvalidPath)
    ));
    assert_eq!(d.entry_count(), 0);
}

#[test]
fn insert_reports_path_conflict() {
    let mut d = Directory::empty();
    d.insert(b"a", file_node(b"occupied")).unwrap();
    assert!(matches!(
        d.insert(b"a/b", file_node(b"x")),
        Err(DirectoryError::PathConflict)
    ));
    match &d.get(b"a").unwrap().value {
        CompleteValue::File(_) => {}
        _ => panic!("failed insert must leave the directory unchanged"),
    }
}

#[test]
fn get_path_traverses_directories() {
    let mut d = Directory::empty();
    d.insert(b"a/b/c.txt", file_node(b"deep")).unwrap();
    assert!(matches!(d.get_path(b"a/b/c.txt"), Ok(Some(_))));
    assert!(matches!(d.get_path(b"a/b"), Ok(Some(_))));
    assert!(matches!(d.get_path(b"a/missing"), Ok(None)));
    assert!(matches!(
        d.get_path(b"a/b/c.txt/below"),
        Err(DirectoryError::PathConflict)
    ));
    assert!(matches!(
        d.get_path(b"a//b"),
        Err(DirectoryError::InvalidPath)
    ));
}

#[test]
fn merge_of_disjoint_directories_is_union() {
    let mut l = Directory::empty();
    l.insert(b"a", file_node(b"1")).unwrap();
    let mut r = Directory::empty();
    r.insert(b"b", file_node(b"2")).unwrap();
    let merged = l.merge(r);
    assert_eq!(merged.entry_count(), 2);
    assert!(merged.get(b"a").is_some());
    assert!(merged.get(b"b").is_some());
}

#[test]
fn merge_is_right_biased() {
    let mut l = Directory::empty();
    l.insert(b"name", file_node(b"left")).unwrap();
    let mut r = Directory::empty();
    r.insert(b"name", symlink_node(b"right")).unwrap();
    let merged = l.merge(r);
    match &merged.get(b"name").unwrap().value {
        CompleteValue::Symlink { target } => assert_eq!(target, b"right"),
        _ => panic!("the right value must win"),
    }
}

#[test]
fn merge_descends_into_directories() {
    let mut l = Directory::empty();
    l.insert(b"dir/left.txt", file_node(b"1")).unwrap();
    let mut r = Directory::empty();
    r.insert(b"dir/right.txt", file_node(b"2")).unwrap();
    let merged = l.merge(r);
    match &merged.get(b"dir").unwrap().value {
        CompleteValue::Directory(sub) => {
            assert!(sub.get(b"left.txt").is_some());
            assert!(sub.get(b"right.txt").is_some());
        }
        _ => panic!("nested directories must merge"),
    }
}
