//! Project definitions and their resolution.
//!
//! A project is a directory holding a `brioche.toml` definition; the
//! definition names dependencies, each either a path under the project or a
//! version to be found in the shared repo directory. The decisions of the
//! resolver are verified here: dependency-name validation, the bounded
//! recursion depth, the path each dependency is loaded from, and the walk
//! that finds the project root above a path. Reading and parsing the
//! definition files is left to the surrounding program, which feeds the
//! parsed definitions back in.

use vstd::prelude::*;

verus! {

broadcast use vstd::std_specs::vec::axiom_vec_index_decreases;

/// The most deeply a project's dependencies may nest.
pub const MAX_DEPENDENCY_DEPTH: usize = 100;

// ---------------------------------------------------------------------------
// Definitions
// ---------------------------------------------------------------------------

/// A dependency version requirement. Only the wildcard is supported.
#[derive(Debug)]
pub enum Version {
    Any,
}

/// An error of project resolution.
#[derive(Debug)]
pub enum ProjectError {
    /// A dependency name holds a character outside `[A-Za-z0-9_]`, or is
    /// empty.
    InvalidDependencyName,
    /// The dependency chain is nested more deeply than allowed.
    DepthExceeded,
    /// A version requirement other than `*` was given.
    UnsupportedVersion,
    /// Two dependencies of one project share a name.
    DuplicateDependencyName,
}

impl Version {
    /// Parse a version requirement: exactly the single character `*`.
    pub fn parse(s: &str) -> (r: Result<Version, ProjectError>)
        ensures
            r is Ok <==> s@ == seq!['*'],
            r matches Ok(v) ==> v is Any,
            r matches Err(e) ==> e is UnsupportedVersion,
    {
        if s.unicode_len() == 1 && s.get_char(0) == '*' {
            proof {
                assert(s@ =~= seq!['*']);
            }
            Ok(Version::Any)
        } else {
            Err(ProjectError::UnsupportedVersion)
        }
    }

    /// The textual form of the requirement.
    pub fn as_str(&self) -> (r: &'static str)
        ensures
            r@ == seq!['*'],
    {
        proof {
            reveal_strlit("*");
        }
        "*"
    }
}

/// One dependency as written in a project definition.
#[derive(Debug)]
pub enum DependencyDefinition {
    /// A project in a directory under this project's own directory.
    Path { path: String },
    /// A project found in the repo directory under the dependency's name.
    Version(Version),
}

/// A parsed `brioche.toml`: the named dependencies, in file order.
#[derive(Debug)]
pub struct ProjectDefinition {
    pub dependencies: Vec<(String, DependencyDefinition)>,
}

/// A resolved project: where it lives, and its resolved dependencies.
#[derive(Debug)]
pub struct Project {
    pub local_path: String,
    pub dependencies: Vec<(String, Project)>,
}

impl Project {
    /// Whether some dependency bears this name.
    pub open spec fn has_dep(self, name: Seq<char>) -> bool {
        exists|i: int|
            0 <= i < self.dependencies@.len() && self.dependencies@[i].0@ == name
    }

    /// Well formed: dependency names are distinct, recursively.
    pub open spec fn wf(self) -> bool
        decreases self,
    {
        &&& forall|i: int, j: int|
            0 <= i < j < self.dependencies@.len() ==> self.dependencies@[i].0@
                != self.dependencies@[j].0@
        &&& forall|i: int|
            0 <= i < self.dependencies@.len() ==> (#[trigger] self.dependencies@[i].1).wf()
    }

    /// A project with no dependencies yet.
    pub fn new(local_path: String) -> (r: Project)
        ensures
            r.local_path == local_path,
            r.dependencies@.len() == 0,
            r.wf(),
    {
        Project { local_path, dependencies: Vec::new() }
    }

    /// Whether some dependency bears this name.
    pub fn has_dependency(&self, name: &String) -> (r: bool)
        ensures
            r == self.has_dep(name@),
    {
        let mut i: usize = 0;
        while i < self.dependencies.len()
            invariant
                0 <= i <= self.dependencies@.len(),
                forall|j: int| 0 <= j < i ==> self.dependencies@[j].0@ != name@,
            decreases self.dependencies@.len() - i,
        {
            if self.dependencies[i].0 == *name {
                return true;
            }
            i = i + 1;
        }
        false
    }

    /// Record a resolved dependency under a fresh name.
    pub fn add_dependency(&mut self, name: String, dep: Project) -> (r: Result<
        (),
        ProjectError,
    >)
        requires
            old(self).wf(),
            dep.wf(),
        ensures
            old(self).has_dep(name@) ==> (r matches Err(e) && e is DuplicateDependencyName)
                && *final(self) == *old(self),
            !old(self).has_dep(name@) ==> r is Ok && final(self).dependencies@ == old(
                self,
            ).dependencies@.push((name, dep)) && final(self).local_path == old(self).local_path
                && final(self).wf(),
    {
        if self.has_dependency(&name) {
            return Err(ProjectError::DuplicateDependencyName);
        }
        self.dependencies.push((name, dep));
        Ok(())
    }
}

// ---------------------------------------------------------------------------
// Dependency names and paths
// ---------------------------------------------------------------------------

/// A character allowed in a dependency name.
pub open spec fn is_name_char(c: char) -> bool {
    ('a' <= c && c <= 'z') || ('A' <= c && c <= 'Z') || ('0' <= c && c <= '9') || c == '_'
}

/// A valid dependency name: non-empty, every character in `[A-Za-z0-9_]`.
pub open spec fn valid_dependency_name(s: Seq<char>) -> bool {
    s.len() > 0 && (forall|i: int| 0 <= i < s.len() ==> is_name_char(#[trigger] s[i]))
}

/// Check a dependency name.
pub fn is_valid_dependency_name(name: &str) -> (r: bool)
    ensures
        r == valid_dependency_name(name@),
{
    let n = name.unicode_len();
    if n == 0 {
        return false;
    }
    let mut i: usize = 0;
    while i < n
        invariant
            0 <= i <= n,
            n == name@.len(),
            forall|j: int| 0 <= j < i ==> is_name_char(#[trigger] name@[j]),
        decreases n - i,
    {
        let c = name.get_char(i);
        let ok = ('a' <= c && c <= 'z') || ('A' <= c && c <= 'Z') || ('0' <= c && c <= '9') || c
            == '_';
        if !ok {
            return false;
        }
        i = i + 1;
    }
    true
}

/// Join a file or directory name under a directory with a `/` separator.
pub fn join_path(dir: &str, name: &str) -> (r: String)
    ensures
        r@ == dir@ + seq!['/'] + name@,
{
    let mut s = String::new();
    s.append(dir);
    proof {
        reveal_strlit("/");
    }
    s.append("/");
    s.append(name);
    s
}

/// The directory a dependency is resolved from.
pub open spec fn dependency_path_of(
    project_path: Seq<char>,
    repo_dir: Seq<char>,
    name: Seq<char>,
    definition: DependencyDefinition,
) -> Seq<char> {
    match definition {
        DependencyDefinition::Path { path } => project_path + seq!['/'] + path@,
        DependencyDefinition::Version(_) => repo_dir + seq!['/'] + name,
    }
}

/// The next dependency to resolve: where to load it from, and the depth
/// left under it.
pub struct DependencyStep {
    pub path: String,
    pub depth: usize,
}

/// Plan the resolution of one named dependency of the project at
/// `project_path`.
///
/// The name must be a valid dependency name, and the remaining depth must
/// not be exhausted; a path dependency is loaded from its path joined under
/// the project directory, a version dependency from the repo directory
/// under its own name.
pub fn plan_dependency(
    project_path: &str,
    repo_dir: &str,
    name: &str,
    definition: &DependencyDefinition,
    depth: usize,
) -> (r: Result<DependencyStep, ProjectError>)
    ensures
        !valid_dependency_name(name@) ==> (r matches Err(e) && e is InvalidDependencyName),
        valid_dependency_name(name@) && depth == 0 ==> (r matches Err(e) && e is DepthExceeded),
        valid_dependency_name(name@) && depth > 0 ==> (r matches Ok(step) && step.depth == depth
            - 1 && step.path@ == dependency_path_of(project_path@, repo_dir@, name@, *definition)),
{
    if !is_valid_dependency_name(name) {
        return Err(ProjectError::InvalidDependencyName);
    }
    if depth == 0 {
        return Err(ProjectError::DepthExceeded);
    }
    let path = match definition {
        DependencyDefinition::Path { path } => join_path(project_path, path.as_str()),
        DependencyDefinition::Version(_) => join_path(repo_dir, name),
    };
    Ok(DependencyStep { path, depth: depth - 1 })
}

// ---------------------------------------------------------------------------
// Finding the project root
// ---------------------------------------------------------------------------

/// The index of the last `/` in a path, if any.
pub open spec fn last_slash(s: Seq<char>) -> Option<int>
    decreases s.len(),
{
    if s.len() == 0 {
        None
    } else if s[s.len() - 1] == '/' {
        Some(s.len() - 1)
    } else {
        last_slash(s.take(s.len() - 1))
    }
}

/// The parent directory of a path: everything before the last `/`, with the
/// root `/` kept as the parent of its direct children, and the empty path —
/// the working directory — as the parent of a bare name. The root itself
/// and the empty path have no parent.
pub open spec fn parent_of(s: Seq<char>) -> Option<Seq<char>> {
    match last_slash(s) {
        None => if s.len() == 0 {
            None
        } else {
            Some(Seq::empty())
        },
        Some(i) => if i == 0 {
            if s.len() == 1 {
                None
            } else {
                Some(seq!['/'])
            }
        } else {
            Some(s.take(i))
        },
    }
}

/// The parent directory of a path.
pub fn parent_path(s: &str) -> (r: Option<String>)
    ensures
        r is Some <==> parent_of(s@) is Some,
        r matches Some(p) ==> parent_of(s@) == Some(p@),
{
    let n = s.unicode_len();
    let mut i = n;
    proof {
        assert(s@.take(n as int) =~= s@);
    }
    while i > 0
        invariant
            0 <= i <= n,
            n == s@.len(),
            last_slash(s@) == last_slash(s@.take(i as int)),
            forall|j: int| i <= j < n ==> s@[j] != '/',
        decreases i,
    {
        let c = s.get_char(i - 1);
        if c == '/' {
            proof {
                assert(s@.take(i as int).len() == i);
                assert(s@.take(i as int)[i - 1] == '/');
                assert(last_slash(s@) == Some(i - 1));
            }
            if i - 1 == 0 {
                if n == 1 {
                    return None;
                }
                proof {
                    reveal_strlit("/");
                }
                return Some(String::from_str("/"));
            }
            let p = s.substring_char(0, i - 1);
            proof {
                assert(p@ == s@.take(i - 1));
            }
            return Some(String::from_str(p));
        }
        proof {
            assert(s@.take(i as int).take(i - 1) =~= s@.take(i - 1));
            assert(s@.take(i as int)[i - 1] == s@[i - 1]);
        }
        i = i - 1;
    }
    proof {
        assert(s@.take(0) =~= Seq::<char>::empty());
    }
    if n == 0 {
        None
    } else {
        Some(String::new())
    }
}

/// One step of the walk that finds the project root above a path.
pub enum RootSearchStep {
    /// The current directory holds a project definition: it is the root.
    Found { root: String },
    /// No definition here: continue in the parent directory.
    Ascend { parent: String },
    /// No definition here and no parent left: there is no project root.
    NotFound,
}

/// Decide the next step of the project-root search at `current`, given
/// whether `current` holds a project definition file.
pub fn find_project_root_step(current: &str, has_definition: bool) -> (r: RootSearchStep)
    ensures
        has_definition ==> (r matches RootSearchStep::Found { root } && root@ == current@),
        !has_definition ==> match parent_of(current@) {
            Some(p) => r matches RootSearchStep::Ascend { parent } && parent@ == p,
            None => r is NotFound,
        },
{
    if has_definition {
        RootSearchStep::Found { root: String::from_str(current) }
    } else {
        match parent_path(current) {
            Some(parent) => RootSearchStep::Ascend { parent },
            None => RootSearchStep::NotFound,
        }
    }
}

/// The path of the project definition file inside a project directory.
pub fn project_definition_path(dir: &str) -> (r: String)
    ensures
        r@ == dir@ + seq!['/'] + "brioche.toml"@,
{
    join_path(dir, "brioche.toml")
}

} // verus!
