use brioche::project::{
    find_project_root_step, is_valid_dependency_name, parent_path, plan_dependency,
    project_definition_path, DependencyDefinition, Project, ProjectError, RootSearchStep, Version,
    MAX_DEPENDENCY_DEPTH,
};

#[test]
fn version_parse() {
    assert!(matches!(Version::parse("*"), Ok(Version::Any)));
    assert!(matches!(
        Version::parse("1.0"),
        Err(ProjectError::UnsupportedVersion)
    ));
    assert!(matches!(
        Version::parse(""),
        Err(ProjectError::UnsupportedVersion)
    ));
    assert_eq!(Version::Any.as_str(), "*");
}

#[test]
fn dependency_name_validation() {
    assert!(is_valid_dependency_name("foo"));
    assert!(is_valid_dependency_name("foo_bar2"));
    assert!(is_valid_dependency_name("B9"));
    assert!(!is_valid_dependency_name(""));
    assert!(!is_valid_dependency_name("foo-bar"));
    assert!(!is_valid_dependency_name("foo/bar"));
    assert!(!is_valid_dependency_name("foo bar"));
}

#[test]
fn path_dependency_resolves_under_project() {
    let def = DependencyDefinition::Path {
        path: String::from("vendor/foo"),
    };
    let step = plan_dependency("/proj", "/repo", "foo", &def, MAX_DEPENDENCY_DEPTH).unwrap();
    assert_eq!(step.path, "/proj/vendor/foo");
    assert_eq!(step.depth, MAX_DEPENDENCY_DEPTH - 1);
}

#[test]
fn version_dependency_resolves_in_repo() {
    let def = DependencyDefinition::Version(Version::Any);
    let step = plan_dependency("/proj", "/repo", "foo", &def, 5).unwrap();
    assert_eq!(step.path, "/repo/foo");
    assert_eq!(step.depth, 4);
}

#[test]
fn invalid_dependency_name_is_rejected() {
    let def = DependencyDefinition::Version(Version::Any);
    assert!(matches!(
        plan_dependency("/proj", "/repo", "bad name", &def, 5),
        Err(ProjectError::InvalidDependencyName)
    ));
}

#[test]
fn exhausted_depth_is_rejected() {
    let def = DependencyDefinition::Version(Version::Any);
    assert!(matches!(
        plan_dependency("/proj", "/repo", "foo", &def, 0),
        Err(ProjectError::DepthExceeded)
    ));
}

#[test]
fn parent_path_cases() {
    assert_eq!(parent_path("/a/b"), Some(String::from("/a")));
    assert_eq!(parent_path("/a"), Some(String::from("/")));
    assert_eq!(parent_path("/"), None);
    assert_eq!(parent_path("name"), Some(String::from("")));
    assert_eq!(parent_path(""), None);
}

#[test]
fn root_search_probes_working_directory_last() {
    match find_project_root_step("name", false) {
        RootSearchStep::Ascend { parent } => assert_eq!(parent, ""),
        _ => panic!("a bare name ascends to the working directory"),
    }
    assert!(matches!(
        find_project_root_step("", false),
        RootSearchStep::NotFound
    ));
}

#[test]
fn root_search_steps() {
    match find_project_root_step("/a/b", true) {
        RootSearchStep::Found { root } => assert_eq!(root, "/a/b"),
        _ => panic!("a directory with a definition is the root"),
    }
    match find_project_root_step("/a/b", false) {
        RootSearchStep::Ascend { parent } => assert_eq!(parent, "/a"),
        _ => panic!("without a definition the search ascends"),
    }
    assert!(matches!(
        find_project_root_step("/", false),
        RootSearchStep::NotFound
    ));
}

#[test]
fn definition_path_layout() {
    assert_eq!(project_definition_path("/a/b"), "/a/b/brioche.toml");
}

#[test]
fn project_dependencies_are_unique() {
    let mut p = Project::new(String::from("/proj"));
    let dep = Project::new(String::from("/repo/foo"));
    assert!(p.add_dependency(String::from("foo"), dep).is_ok());
    assert!(p.has_dependency(&String::from("foo")));
    assert!(!p.has_dependency(&String::from("bar")));
    let dup = Project::new(String::from("/elsewhere"));
    assert!(matches!(
        p.add_dependency(String::from("foo"), dup),
        Err(ProjectError::DuplicateDependencyName)
    ));
    assert_eq!(p.dependencies.len(), 1);
}
