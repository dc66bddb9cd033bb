use brioche::directory::Directory;
use brioche::hashing::BlobHash;
use brioche::input::{collect_resources, ingest_tree, InputError, InputTree};
use brioche::value::{CompleteValue, FileValue, WithMeta};

fn file_node(content: &[u8]) -> WithMeta<CompleteValue> {
    WithMeta::new(CompleteValue::File(FileValue {
        content: BlobHash::for_content(content),
        executable: false,
        resources: Directory::empty(),
    }))
}

fn symlink_node(target: &[u8]) -> WithMeta<CompleteValue> {
    WithMeta::new(CompleteValue::Symlink {
        target: target.to_vec(),
    })
}

#[test]
fn test_input_file() {
    let tree = InputTree::File {
        content: b"hello".to_vec(),
        mode: 0o644,
    };
    let mut blobs = Vec::new();
    let ingested = ingest_tree(&tree, &mut blobs).unwrap();
    match ingested.value {
        CompleteValue::File(f) => {
            assert!(f.content.same_as(&BlobHash::for_content(b"hello")));
            assert!(!f.executable);
        }
        _ => panic!("a regular file ingests to a file value"),
    }
    assert_eq!(blobs, vec![b"hello".to_vec()]);
}

#[test]
fn test_input_executable_file() {
    let tree = InputTree::File {
        content: b"hello".to_vec(),
        mode: 0o755,
    };
    let mut blobs = Vec::new();
    let ingested = ingest_tree(&tree, &mut blobs).unwrap();
    match ingested.value {
        CompleteValue::File(f) => {
            assert!(f.executable);
        }
        _ => panic!("a regular file ingests to a file value"),
    }
}

#[test]
fn test_input_symlink() {
    let tree = InputTree::Symlink {
        target: b"/foo".to_vec(),
    };
    let mut blobs = Vec::new();
    let ingested = ingest_tree(&tree, &mut blobs).unwrap();
    match ingested.value {
        CompleteValue::Symlink { target } => assert_eq!(target, b"/foo"),
        _ => panic!("a symlink ingests to a symlink value"),
    }
    assert!(blobs.is_empty());
}

#[test]
fn symlink_target_is_opaque_even_when_dangling() {
    let tree = InputTree::Symlink {
        target: b"test_target".to_vec(),
    };
    let mut blobs = Vec::new();
    let ingested = ingest_tree(&tree, &mut blobs).unwrap();
    match ingested.value {
        CompleteValue::Symlink { target } => assert_eq!(target, b"test_target"),
        _ => panic!("a symlink ingests to a symlink value"),
    }
}

#[test]
fn test_input_empty_dir() {
    let tree = InputTree::Directory {
        entries: Vec::new(),
    };
    let mut blobs = Vec::new();
    let ingested = ingest_tree(&tree, &mut blobs).unwrap();
    match ingested.value {
        CompleteValue::Directory(d) => assert_eq!(d.entry_count(), 0),
        _ => panic!("a directory ingests to a directory value"),
    }
}

#[test]
fn test_input_dir() {
    let tree = InputTree::Directory {
        entries: vec![
            (
                b"link".to_vec(),
                InputTree::Symlink {
                    target: b"hello/hi.txt".to_vec(),
                },
            ),
            (
                b"hello".to_vec(),
                InputTree::Directory {
                    entries: vec![(
                        b"hi.txt".to_vec(),
                        InputTree::File {
                            content: b"hello".to_vec(),
                            mode: 0o644,
                        },
                    )],
                },
            ),
            (
                b"empty".to_vec(),
                InputTree::Directory {
                    entries: Vec::new(),
                },
            ),
        ],
    };
    let mut blobs = Vec::new();
    let ingested = ingest_tree(&tree, &mut blobs).unwrap();
    let d = match ingested.value {
        CompleteValue::Directory(d) => d,
        _ => panic!("a directory ingests to a directory value"),
    };
    assert_eq!(d.entry_count(), 3);
    assert_eq!(d.entry_at(0).name, b"empty".to_vec());
    assert_eq!(d.entry_at(1).name, b"hello".to_vec());
    assert_eq!(d.entry_at(2).name, b"link".to_vec());
    match &d.get(b"hello").unwrap().value {
        CompleteValue::Directory(sub) => {
            match &sub.get(b"hi.txt").unwrap().value {
                CompleteValue::File(f) => {
                    assert!(f.content.same_as(&BlobHash::for_content(b"hello")));
                }
                _ => panic!("expected a file"),
            }
        }
        _ => panic!("expected a directory"),
    }
    assert_eq!(blobs, vec![b"hello".to_vec()]);
}

#[test]
fn referenced_resource_is_collected() {
    let mut resources = Directory::empty();
    resources.insert(b"test", file_node(b"hello")).unwrap();
    let collected = collect_resources(&resources, &vec![b"test".to_vec()]).unwrap();
    assert_eq!(collected.entry_count(), 1);
    match &collected.get(b"test").unwrap().value {
        CompleteValue::File(f) => {
            assert!(f.content.same_as(&BlobHash::for_content(b"hello")));
        }
        _ => panic!("expected the referenced file"),
    }
}

#[test]
fn unreferenced_resources_are_omitted() {
    let mut resources = Directory::empty();
    resources.insert(b"test", file_node(b"hello")).unwrap();
    resources
        .insert(b"unused.txt", file_node(b"other"))
        .unwrap();
    let collected = collect_resources(&resources, &vec![b"test".to_vec()]).unwrap();
    assert_eq!(collected.entry_count(), 1);
    assert!(collected.get(b"unused.txt").is_none());
}

#[test]
fn broken_symlink_resource_is_recorded_without_failing() {
    let mut resources = Directory::empty();
    resources
        .insert(b"test", symlink_node(b"test_target"))
        .unwrap();
    let collected = collect_resources(&resources, &vec![b"test".to_vec()]).unwrap();
    assert_eq!(collected.entry_count(), 1);
    match &collected.get(b"test").unwrap().value {
        CompleteValue::Symlink { target } => assert_eq!(target, b"test_target"),
        _ => panic!("the dangling symlink must be recorded as itself"),
    }
}

#[test]
fn symlink_resource_targets_are_followed() {
    let mut resources = Directory::empty();
    resources
        .insert(b"test", symlink_node(b"test_target"))
        .unwrap();
    resources
        .insert(b"test_target", file_node(b"hello"))
        .unwrap();
    let collected = collect_resources(&resources, &vec![b"test".to_vec()]).unwrap();
    assert_eq!(collected.entry_count(), 2);
    assert!(collected.get(b"test").is_some());
    assert!(collected.get(b"test_target").is_some());
}

#[test]
fn symlink_targets_resolve_relative_to_their_directory() {
    let mut resources = Directory::empty();
    resources
        .insert(b"test/target", symlink_node(b"../test_target"))
        .unwrap();
    resources
        .insert(b"test_target", file_node(b"hello"))
        .unwrap();
    let collected = collect_resources(&resources, &vec![b"test/target".to_vec()]).unwrap();
    assert!(matches!(
        collected.get_path(b"test/target"),
        Ok(Some(_))
    ));
    assert!(collected.get(b"test_target").is_some());
}

#[test]
fn missing_referenced_resource_fails() {
    let resources = Directory::empty();
    match collect_resources(&resources, &vec![b"test".to_vec()]) {
        Err(InputError::ResourceUnavailable) => {}
        _ => panic!("a missing referenced resource must fail"),
    }
}

#[test]
fn cyclic_resource_symlinks_fail() {
    let mut resources = Directory::empty();
    resources.insert(b"a", symlink_node(b"b")).unwrap();
    resources.insert(b"b", symlink_node(b"a")).unwrap();
    match collect_resources(&resources, &vec![b"a".to_vec()]) {
        Err(InputError::ResourceUnavailable) => {}
        _ => panic!("a symlink cycle must run out of fuel and fail"),
    }
}

#[test]
fn ingest_rejects_invalid_entry_names() {
    let tree = InputTree::Directory {
        entries: vec![(
            b"..".to_vec(),
            InputTree::File {
                content: b"x".to_vec(),
                mode: 0o644,
            },
        )],
    };
    let mut blobs = Vec::new();
    match ingest_tree(&tree, &mut blobs) {
        Err(InputError::InvalidEntryName) => {}
        _ => panic!("an invalid entry name must be rejected"),
    }
}
