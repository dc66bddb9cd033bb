use brioche::directory::Directory;
use brioche::hashing::BlobHash;
use brioche::resolver::{
    fingerprint, resolve, BeginResolve, FlightTable, LazyValue, ResolveError,
};
use brioche::value::{CompleteValue, FileValue, ValueMeta, WithMeta};

fn file_node(content: &[u8]) -> WithMeta<CompleteValue> {
    WithMeta::new(CompleteValue::File(FileValue {
        content: BlobHash::for_content(content),
        executable: false,
        resources: Directory::empty(),
    }))
}

fn dir_with(path: &[u8], content: &[u8]) -> Directory {
    let mut d = Directory::empty();
    d.insert(path, file_node(content)).unwrap();
    d
}

#[test]
fn complete_values_resolve_to_themselves() {
    let resolved = resolve(WithMeta::new(LazyValue::Symlink {
        target: b"/foo".to_vec(),
    }))
    .unwrap();
    match resolved.value {
        CompleteValue::Symlink { target } => assert_eq!(target, b"/foo"),
        _ => panic!("a symlink resolves to itself"),
    }

    let resolved = resolve(WithMeta::new(LazyValue::File(FileValue {
        content: BlobHash::for_content(b"hello"),
        executable: true,
        resources: Directory::empty(),
    })))
    .unwrap();
    match resolved.value {
        CompleteValue::File(f) => {
            assert!(f.content.same_as(&BlobHash::for_content(b"hello")));
            assert!(f.executable);
        }
        _ => panic!("a file resolves to itself"),
    }
}

#[test]
fn merge_of_two_directories() {
    let d1 = dir_with(b"a", b"1");
    let d2 = dir_with(b"b", b"2");
    let lazy = LazyValue::Merge {
        directories: vec![
            WithMeta::new(LazyValue::Directory(d1)),
            WithMeta::new(LazyValue::Directory(d2)),
        ],
    };
    let resolved = resolve(WithMeta::new(lazy)).unwrap();
    match resolved.value {
        CompleteValue::Directory(d) => {
            assert_eq!(d.entry_count(), 2);
            assert!(d.get(b"a").is_some());
            assert!(d.get(b"b").is_some());
        }
        _ => panic!("a merge resolves to a directory"),
    }
}

#[test]
fn merge_is_right_biased_on_conflicts() {
    let d1 = dir_with(b"name", b"left");
    let d2 = dir_with(b"name", b"right");
    let lazy = LazyValue::Merge {
        directories: vec![
            WithMeta::new(LazyValue::Directory(d1)),
            WithMeta::new(LazyValue::Directory(d2)),
        ],
    };
    let resolved = resolve(WithMeta::new(lazy)).unwrap();
    match resolved.value {
        CompleteValue::Directory(d) => match &d.get(b"name").unwrap().value {
            CompleteValue::File(f) => {
                assert!(f.content.same_as(&BlobHash::for_content(b"right")));
            }
            _ => panic!("expected a file"),
        },
        _ => panic!("a merge resolves to a directory"),
    }
}

#[test]
fn merge_of_ten_disjoint_directories_is_their_union() {
    let mut children = Vec::new();
    let mut expected_names = Vec::new();
    for i in 0..10u8 {
        let name = vec![b'd', b'0' + i];
        let mut inner_path = name.clone();
        inner_path.extend_from_slice(b"/deep/file.txt");
        children.push(WithMeta::new(LazyValue::Directory(dir_with(
            &inner_path,
            &[i],
        ))));
        expected_names.push(name);
    }
    let resolved = resolve(WithMeta::new(LazyValue::Merge {
        directories: children,
    }))
    .unwrap();
    match resolved.value {
        CompleteValue::Directory(d) => {
            assert_eq!(d.entry_count(), 10);
            for name in &expected_names {
                assert!(d.get(name).is_some());
            }
        }
        _ => panic!("a merge resolves to a directory"),
    }
}

#[test]
fn nested_merges_resolve() {
    let inner = LazyValue::Merge {
        directories: vec![
            WithMeta::new(LazyValue::Directory(dir_with(b"a", b"1"))),
            WithMeta::new(LazyValue::Directory(dir_with(b"b", b"2"))),
        ],
    };
    let outer = LazyValue::Merge {
        directories: vec![
            WithMeta::new(inner),
            WithMeta::new(LazyValue::Directory(dir_with(b"c", b"3"))),
        ],
    };
    let resolved = resolve(WithMeta::new(outer)).unwrap();
    match resolved.value {
        CompleteValue::Directory(d) => {
            assert_eq!(d.entry_count(), 3);
        }
        _ => panic!("a merge resolves to a directory"),
    }
}

#[test]
fn merge_of_non_directory_fails() {
    let lazy = LazyValue::Merge {
        directories: vec![WithMeta::new(LazyValue::Symlink {
            target: b"/x".to_vec(),
        })],
    };
    match resolve(WithMeta::new(lazy)) {
        Err(ResolveError::MergeOfNonDirectory) => {}
        _ => panic!("merging a non-directory must fail"),
    }
}

#[test]
fn empty_merge_resolves_to_empty_directory() {
    let resolved = resolve(WithMeta::new(LazyValue::Merge {
        directories: Vec::new(),
    }))
    .unwrap();
    match resolved.value {
        CompleteValue::Directory(d) => assert_eq!(d.entry_count(), 0),
        _ => panic!("an empty merge resolves to an empty directory"),
    }
}

#[test]
fn resolves_of_equal_values_agree() {
    let make = || {
        LazyValue::Merge {
            directories: vec![
                WithMeta::new(LazyValue::Directory(dir_with(b"x/y", b"1"))),
                WithMeta::new(LazyValue::Directory(dir_with(b"x/z", b"2"))),
            ],
        }
    };
    let a = resolve(WithMeta::new(make())).unwrap();
    let b = resolve(WithMeta::new(make())).unwrap();
    match (a.value, b.value) {
        (CompleteValue::Directory(da), CompleteValue::Directory(db)) => {
            assert_eq!(da.entry_count(), db.entry_count());
            for i in 0..da.entry_count() {
                assert_eq!(da.entry_at(i).name, db.entry_at(i).name);
            }
        }
        _ => panic!("both resolves yield directories"),
    }
}

#[test]
fn single_flight_one_leader_per_fingerprint() {
    let mut table = FlightTable::new();
    assert!(matches!(table.begin_resolve(b"fp-1"), BeginResolve::Lead));
    assert!(matches!(table.begin_resolve(b"fp-1"), BeginResolve::Wait));
    assert!(matches!(table.begin_resolve(b"fp-2"), BeginResolve::Lead));
    assert!(matches!(table.begin_resolve(b"fp-1"), BeginResolve::Wait));
    assert!(matches!(table.begin_resolve(b"fp-2"), BeginResolve::Wait));
}

#[test]
fn leader_result_is_shared_with_waiters() {
    let mut table = FlightTable::new();
    assert!(matches!(table.begin_resolve(b"fp"), BeginResolve::Lead));
    assert!(table.cached_result(b"fp").is_none());
    table.complete_resolve(
        b"fp",
        WithMeta::new(CompleteValue::Symlink {
            target: b"/shared".to_vec(),
        }),
    );
    for _ in 0..2 {
        match &table.cached_result(b"fp").expect("the leader's result is recorded").value {
            CompleteValue::Symlink { target } => assert_eq!(target, b"/shared"),
            _ => panic!("every observer sees the recorded result"),
        }
    }
    assert!(table.cached_result(b"other").is_none());
}

#[test]
fn fingerprints_ignore_metadata_and_tell_values_apart() {
    let plain = LazyValue::Merge {
        directories: vec![WithMeta::new(LazyValue::Directory(dir_with(b"a", b"1")))],
    };
    let tagged = LazyValue::Merge {
        directories: vec![WithMeta::with_meta(
            LazyValue::Directory(dir_with(b"a", b"1")),
            ValueMeta {
                tag: String::from("origin"),
            },
        )],
    };
    assert_eq!(fingerprint(&plain), fingerprint(&tagged));

    let other = LazyValue::Merge {
        directories: vec![WithMeta::new(LazyValue::Directory(dir_with(b"a", b"2")))],
    };
    assert_ne!(fingerprint(&plain), fingerprint(&other));
    let symlink = LazyValue::Symlink {
        target: b"a".to_vec(),
    };
    assert_ne!(fingerprint(&plain), fingerprint(&symlink));
    assert_eq!(fingerprint(&symlink).len(), 32);
}
