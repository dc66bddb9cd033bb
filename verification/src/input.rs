//! Input ingestion: turning a host directory tree into a complete value.
//!
//! The surrounding program walks the host filesystem and hands the walk's
//! result in as an `InputTree` of plain values: file bytes and mode bits,
//! raw symlink targets, directory entries in directory order. Ingestion is
//! verified here: a file becomes a blob reference with its executable bit,
//! a symlink keeps its target bytes untouched, a directory collects its
//! entries in sorted order, and every file's bytes are listed for the blob
//! store to persist.

use vstd::prelude::*;

use crate::directory::{
    component_views, is_valid_key, split_path, split_path_exec, spec_get_path, valid_key,
    Directory, PathLookup,
};
use crate::hashing::{blake3_of, clone_bytes, BlobHash};
use crate::value::{
    clone_node, sorted_put, spec_insert_path, CompleteValue, FileValue, ValueModel, WithMeta,
};

verus! {

broadcast use vstd::std_specs::vec::axiom_vec_index_decreases, vstd::std_specs::vec::axiom_vec_decreases_to_view;

/// A host directory tree as the walk reports it: plain bytes and mode
/// bits, before any interpretation.
#[derive(Debug)]
pub enum InputTree {
    File { content: Vec<u8>, mode: u32 },
    Symlink { target: Vec<u8> },
    Directory { entries: Vec<(Vec<u8>, InputTree)> },
}

/// A file is executable when any execute permission bit is set in its
/// mode.
pub open spec fn executable_of(mode: u32) -> bool {
    mode & 0o111 != 0
}

/// The complete value a host tree ingests to, or `None` when some entry
/// name is no valid directory key. A symlink's target is kept as its raw
/// bytes, whether or not it resolves; a file's resources are empty.
pub open spec fn spec_ingest(t: InputTree) -> Option<ValueModel>
    decreases t,
{
    match t {
        InputTree::File { content, mode } => Some(
            ValueModel::File {
                content: blake3_of(content@),
                executable: executable_of(mode),
                resources: Seq::empty(),
            },
        ),
        InputTree::Symlink { target } => Some(ValueModel::Symlink { target: target@ }),
        InputTree::Directory { entries } => match spec_ingest_entries(entries@, entries@.len() as int) {
            Some(m) => Some(ValueModel::Directory { entries: m }),
            None => None,
        },
    }
}

/// Ingest the first `n` entries of a directory, binding each name in turn.
pub open spec fn spec_ingest_entries(s: Seq<(Vec<u8>, InputTree)>, n: int) -> Option<
    Seq<(Seq<u8>, ValueModel)>,
>
    decreases s, n,
{
    if n <= 0 {
        Some(Seq::empty())
    } else if n > s.len() {
        None
    } else {
        match (spec_ingest_entries(s, n - 1), spec_ingest(s[n - 1].1)) {
            (Some(acc), Some(v)) => if valid_key(s[n - 1].0@) {
                Some(sorted_put(acc, s[n - 1].0@, v))
            } else {
                None
            },
            (_, _) => None,
        }
    }
}

/// The bytes of every regular file in the tree, in walk order: these are
/// the blobs a consumer must persist before using the ingested value.
pub open spec fn tree_contents(t: InputTree) -> Seq<Seq<u8>>
    decreases t,
{
    match t {
        InputTree::File { content, mode } => seq![content@],
        InputTree::Symlink { target } => Seq::empty(),
        InputTree::Directory { entries } => entries_contents(entries@, entries@.len() as int),
    }
}

/// The bytes of every regular file under the first `n` entries.
pub open spec fn entries_contents(s: Seq<(Vec<u8>, InputTree)>, n: int) -> Seq<Seq<u8>>
    decreases s, n,
{
    if n <= 0 || n > s.len() {
        Seq::empty()
    } else {
        entries_contents(s, n - 1) + tree_contents(s[n - 1].1)
    }
}

/// An error of input ingestion.
#[derive(Debug)]
pub enum InputError {
    /// A directory entry's name is empty, `.`, `..`, or holds `/`.
    InvalidEntryName,
    /// A referenced resource is absent, crosses a non-directory, or has an
    /// invalid path; or the chain of resource symlinks is too long.
    ResourceUnavailable,
}

// ---------------------------------------------------------------------------
// Packed-file resources
// ---------------------------------------------------------------------------

/// How many queued lookups a resource collection will process beyond one
/// per referenced path; this bounds the symlink chains that are followed,
/// so a cycle of resource symlinks fails instead of running on.
pub const MAX_RESOURCE_LINKS: u64 = 1000;

/// Resolve the segments of a symlink target against the components of the
/// directory the symlink sits in: empty segments and `.` are skipped, `..`
/// ascends, and a target that escapes the root resolves to nothing.
pub open spec fn apply_target_segments(base: Seq<Seq<u8>>, segs: Seq<Seq<u8>>) -> Option<
    Seq<Seq<u8>>,
>
    decreases segs.len(),
{
    if segs.len() == 0 {
        if base.len() > 0 {
            Some(base)
        } else {
            None
        }
    } else {
        let c = segs[0];
        if c.len() == 0 || c == seq![46u8] {
            apply_target_segments(base, segs.drop_first())
        } else if c == seq![46u8, 46u8] {
            if base.len() == 0 {
                None
            } else {
                apply_target_segments(base.drop_last(), segs.drop_first())
            }
        } else if valid_key(c) {
            apply_target_segments(base.push(c), segs.drop_first())
        } else {
            None
        }
    }
}

/// Where a symlink target points within the resources root: nothing for an
/// absolute target or one that escapes the root.
pub open spec fn spec_resolve_target(base: Seq<Seq<u8>>, target: Seq<u8>) -> Option<
    Seq<Seq<u8>>,
> {
    if target.len() > 0 && target[0] == 47u8 {
        None
    } else {
        apply_target_segments(base, split_path(target))
    }
}

/// Copy path components.
fn clone_components(v: &Vec<Vec<u8>>) -> (r: Vec<Vec<u8>>)
    ensures
        component_views(r@) == component_views(v@),
{
    let mut r: Vec<Vec<u8>> = Vec::new();
    let mut i: usize = 0;
    while i < v.len()
        invariant
            0 <= i <= v@.len(),
            r@.len() == i,
            forall|j: int| 0 <= j < i ==> (#[trigger] r@[j])@ == v@[j]@,
        decreases v@.len() - i,
    {
        r.push(clone_bytes(&v[i]));
        i = i + 1;
    }
    proof {
        assert(component_views(r@) =~= component_views(v@));
    }
    r
}

/// Resolve a symlink target against the components of the directory it
/// sits in.
pub fn resolve_link_target(base: &Vec<Vec<u8>>, target: &[u8]) -> (r: Option<Vec<Vec<u8>>>)
    ensures
        r is Some <==> spec_resolve_target(component_views(base@), target@) is Some,
        r matches Some(v) ==> spec_resolve_target(component_views(base@), target@) == Some(
            component_views(v@),
        ),
{
    if target.len() > 0 && target[0] == 47 {
        return None;
    }
    let segs = split_path_exec(target);
    let mut cur = clone_components(base);
    let mut i: usize = 0;
    proof {
        assert(component_views(segs@).skip(0) =~= component_views(segs@));
    }
    while i < segs.len()
        invariant
            0 <= i <= segs@.len(),
            component_views(segs@) == split_path(target@),
            apply_target_segments(component_views(base@), split_path(target@))
                == apply_target_segments(
                component_views(cur@),
                component_views(segs@).skip(i as int),
            ),
        decreases segs@.len() - i,
    {
        let ghost segs_left = component_views(segs@).skip(i as int);
        proof {
            assert(segs_left[0] == segs@[i as int]@);
            assert(segs_left.drop_first() =~= component_views(segs@).skip(i + 1));
        }
        let s = &segs[i];
        if s.len() == 0 || (s.len() == 1 && s[0] == 46) {
            proof {
                if s@.len() == 1 && s@[0] == 46u8 {
                    assert(s@ =~= seq![46u8]);
                }
            }
        } else if s.len() == 2 && s[0] == 46 && s[1] == 46 {
            proof {
                assert(s@ =~= seq![46u8, 46u8]);
            }
            if cur.len() == 0 {
                return None;
            }
            let ghost cur0 = cur@;
            cur.pop();
            proof {
                assert(component_views(cur@) =~= component_views(cur0).drop_last());
            }
        } else if is_valid_key(s) {
            let ghost cur0 = cur@;
            cur.push(clone_bytes(s));
            proof {
                assert(component_views(cur@) =~= component_views(cur0).push(s@));
            }
        } else {
            proof {
                assert(s@.len() > 0 && s@ != seq![46u8] && s@ != seq![46u8, 46u8]);
            }
            return None;
        }
        i = i + 1;
    }
    proof {
        assert(component_views(segs@).skip(i as int) =~= Seq::<Seq<u8>>::empty());
    }
    if cur.len() == 0 {
        None
    } else {
        Some(cur)
    }
}

/// The lookups a collection starts from: one required entry per referenced
/// path.
pub open spec fn initial_refs_queue(refs: Seq<Vec<u8>>) -> Seq<(Seq<Seq<u8>>, bool)> {
    refs.map_values(|r: Vec<u8>| (split_path(r@), true))
}

/// The views of a queue of pending lookups.
pub open spec fn queue_views(q: Seq<(Vec<Vec<u8>>, bool)>) -> Seq<(Seq<Seq<u8>>, bool)> {
    q.map_values(|e: (Vec<Vec<u8>>, bool)| (component_views(e.0@), e.1))
}

/// The fuel a collection starts with.
pub open spec fn collect_fuel(refs: nat) -> nat {
    (refs + MAX_RESOURCE_LINKS) as nat
}

/// Collect resources: process each queued path in turn against the
/// resources root. A found value is recorded at its own path; a found
/// symlink additionally queues its resolved target, without requiring it
/// to exist. A required path that is absent, crosses a non-directory or is
/// invalid fails the collection, as does running out of fuel.
pub open spec fn spec_collect(
    resources: Seq<(Seq<u8>, ValueModel)>,
    queue: Seq<(Seq<Seq<u8>>, bool)>,
    out: Seq<(Seq<u8>, ValueModel)>,
    fuel: nat,
) -> Option<Seq<(Seq<u8>, ValueModel)>>
    decreases fuel,
{
    if queue.len() == 0 {
        Some(out)
    } else if fuel <= 0 {
        None
    } else {
        let comps = queue[0].0;
        let required = queue[0].1;
        if !(comps.len() > 0 && (forall|i: int| 0 <= i < comps.len() ==> valid_key(#[trigger] comps[i])))
        {
            if required {
                None
            } else {
                spec_collect(resources, queue.drop_first(), out, (fuel - 1) as nat)
            }
        } else {
            match spec_get_path(resources, comps) {
                PathLookup::Found(v) => match spec_insert_path(out, comps, v) {
                    Some(out2) => {
                        let extra = match v {
                            ValueModel::Symlink { target } => match spec_resolve_target(
                                comps.drop_last(),
                                target,
                            ) {
                                Some(t) => seq![(t, false)],
                                None => Seq::<(Seq<Seq<u8>>, bool)>::empty(),
                            },
                            _ => Seq::<(Seq<Seq<u8>>, bool)>::empty(),
                        };
                        spec_collect(resources, queue.drop_first() + extra, out2, (fuel - 1) as nat)
                    },
                    None => None,
                },
                PathLookup::Missing => if required {
                    None
                } else {
                    spec_collect(resources, queue.drop_first(), out, (fuel - 1) as nat)
                },
                PathLookup::Conflict => if required {
                    None
                } else {
                    spec_collect(resources, queue.drop_first(), out, (fuel - 1) as nat)
                },
            }
        }
    }
}

/// Collect the resources a packed file references from its ingested
/// resources root: exactly the referenced paths and the transitively
/// followed symlink targets among them, and nothing else. A symlink is
/// recorded as itself — its target bytes untouched — and a dangling
/// target is no failure.
pub fn collect_resources(resources: &Directory, refs: &Vec<Vec<u8>>) -> (r: Result<
    Directory,
    InputError,
>)
    requires
        resources.wf(),
    ensures
        r matches Ok(d) ==> d.wf() && spec_collect(
            resources.model(),
            initial_refs_queue(refs@),
            Seq::empty(),
            collect_fuel(refs@.len() as nat),
        ) == Some(d.model()),
        r is Err <==> spec_collect(
            resources.model(),
            initial_refs_queue(refs@),
            Seq::empty(),
            collect_fuel(refs@.len() as nat),
        ) is None,
{
    let ghost rm = resources.model();
    let ghost q0 = initial_refs_queue(refs@);
    let ghost fuel0 = collect_fuel(refs@.len() as nat);
    let mut queue: Vec<(Vec<Vec<u8>>, bool)> = Vec::new();
    let mut i: usize = 0;
    while i < refs.len()
        invariant
            0 <= i <= refs@.len(),
            queue@.len() == i,
            forall|j: int|
                0 <= j < i ==> (#[trigger] queue_views(queue@)[j]) == (
                    split_path(refs@[j]@),
                    true,
                ),
        decreases refs@.len() - i,
    {
        let comps_i = split_path_exec(refs[i].as_slice());
        let ghost qb = queue@;
        queue.push((comps_i, true));
        proof {
            assert forall|j: int| 0 <= j < i + 1 implies (#[trigger] queue_views(queue@)[j]) == (
                split_path(refs@[j]@),
                true,
            ) by {
                if j < i {
                    assert(queue@[j] == qb[j]);
                    assert(queue_views(qb)[j] == (split_path(refs@[j]@), true));
                }
            }
        }
        i = i + 1;
    }
    proof {
        assert(queue_views(queue@) =~= q0);
    }
    let mut out = Directory::empty();
    let mut fuel: u64 = MAX_RESOURCE_LINKS;
    let mut refs_left = refs.len();
    // The exec fuel counts down through the u64 part first, then the
    // per-reference allowance; together they mirror `collect_fuel`.
    proof {
        assert(fuel as nat + refs_left as nat == fuel0);
        assert(spec_collect(rm, queue_views(queue@), out.model(), fuel0) == spec_collect(
            rm,
            q0,
            Seq::empty(),
            fuel0,
        ));
    }
    while queue.len() > 0
        invariant
            resources.wf(),
            resources.model() == rm,
            q0 == initial_refs_queue(refs@),
            fuel0 == collect_fuel(refs@.len() as nat),
            out.wf(),
            spec_collect(rm, queue_views(queue@), out.model(), fuel as nat + refs_left as nat)
                == spec_collect(rm, q0, Seq::empty(), fuel0),
        decreases fuel as nat + refs_left as nat,
    {
        if fuel == 0 && refs_left == 0 {
            return Err(InputError::ResourceUnavailable);
        }
        let ghost qv0 = queue_views(queue@);
        let ghost out0 = out.model();
        let ghost fuel_now = fuel as nat + refs_left as nat;
        let (comps, required) = queue.remove(0);
        let ghost comps0 = comps@;
        let ghost cv = component_views(comps0);
        if refs_left > 0 {
            refs_left = refs_left - 1;
        } else {
            fuel = fuel - 1;
        }
        proof {
            assert(qv0[0] == (cv, required));
            assert(queue_views(queue@) =~= qv0.drop_first());
            assert(fuel as nat + refs_left as nat == fuel_now - 1);
        }
        let mut valid = comps.len() > 0;
        let mut k: usize = 0;
        while k < comps.len()
            invariant
                0 <= k <= comps@.len(),
                valid ==> comps@.len() > 0,
                valid == (comps@.len() > 0 && (forall|j: int|
                    0 <= j < k ==> valid_key((#[trigger] comps@[j])@))),
            decreases comps@.len() - k,
        {
            if !is_valid_key(comps[k].as_slice()) {
                valid = false;
            }
            k = k + 1;
        }
        proof {
            assert forall|j: int| 0 <= j < cv.len() implies (#[trigger] cv[j]) == comps@[j]@ by {}
            if valid {
                assert(cv.len() > 0 && (forall|j: int|
                    0 <= j < cv.len() ==> valid_key(#[trigger] cv[j])));
            } else {
                if cv.len() > 0 && (forall|j: int|
                    0 <= j < cv.len() ==> valid_key(#[trigger] cv[j])) {
                    assert forall|j: int|
                        0 <= j < comps@.len() implies valid_key((#[trigger] comps@[j])@) by {
                        assert(cv[j] == comps@[j]@);
                    }
                    assert(false);
                }
            }
            assert(valid == (cv.len() > 0 && (forall|j: int|
                0 <= j < cv.len() ==> valid_key(#[trigger] cv[j]))));
        }
        if !valid {
            if required {
                return Err(InputError::ResourceUnavailable);
            }
            proof {
                assert(spec_collect(rm, qv0, out0, fuel_now) == spec_collect(
                    rm,
                    qv0.drop_first(),
                    out0,
                    (fuel_now - 1) as nat,
                ));
            }
            continue ;
        }
        let found = match resources.get_at(&comps) {
            Err(_) => {
                if required {
                    return Err(InputError::ResourceUnavailable);
                }
                proof {
                    assert(spec_collect(rm, qv0, out0, fuel_now) == spec_collect(
                        rm,
                        qv0.drop_first(),
                        out0,
                        (fuel_now - 1) as nat,
                    ));
                }
                continue ;
            },
            Ok(None) => {
                if required {
                    return Err(InputError::ResourceUnavailable);
                }
                proof {
                    assert(spec_collect(rm, qv0, out0, fuel_now) == spec_collect(
                        rm,
                        qv0.drop_first(),
                        out0,
                        (fuel_now - 1) as nat,
                    ));
                }
                continue ;
            },
            Ok(Some(node)) => node,
        };
        let ghost v = found.value.model();
        let owned = clone_node(found);
        match out.insert_at(&comps, owned) {
            Err(_) => {
                return Err(InputError::ResourceUnavailable);
            },
            Ok(()) => {},
        }
        proof {
            assert(spec_get_path(rm, cv) == PathLookup::Found(v));
            assert(spec_insert_path(out0, cv, v) == Some(out.model()));
        }
        match &found.value {
            CompleteValue::Symlink { target } => {
                proof {
                    assert(v == ValueModel::Symlink { target: target@ });
                }
                let mut parent = comps;
                let popped = parent.pop();
                proof {
                    assert(popped is Some);
                    assert(parent@ =~= comps0.drop_last());
                    assert(component_views(parent@) =~= cv.drop_last());
                }
                match resolve_link_target(&parent, target.as_slice()) {
                    Some(t) => {
                        let ghost qbefore = queue_views(queue@);
                        queue.push((t, false));
                        proof {
                            assert(queue_views(queue@) =~= qbefore.push(
                                (component_views(t@), false),
                            ));
                            assert(queue_views(queue@) =~= qv0.drop_first() + seq![
                                (component_views(t@), false),
                            ]);
                            assert(spec_collect(rm, qv0, out0, fuel_now) == spec_collect(
                                rm,
                                queue_views(queue@),
                                out.model(),
                                (fuel_now - 1) as nat,
                            ));
                        }
                    },
                    None => {
                        proof {
                            assert(queue_views(queue@) =~= qv0.drop_first()
                                + Seq::<(Seq<Seq<u8>>, bool)>::empty());
                            assert(spec_collect(rm, qv0, out0, fuel_now) == spec_collect(
                                rm,
                                queue_views(queue@),
                                out.model(),
                                (fuel_now - 1) as nat,
                            ));
                        }
                    },
                }
            },
            _ => {
                proof {
                    assert(!(v is Symlink)) by {
                        match found.value {
                            CompleteValue::File(_) => {},
                            CompleteValue::Directory(_) => {},
                            CompleteValue::Symlink { .. } => {
                                assert(false);
                            },
                        }
                    }
                    assert(spec_collect(rm, qv0, out0, fuel_now) == spec_collect(
                        rm,
                        queue_views(queue@),
                        out.model(),
                        (fuel_now - 1) as nat,
                    ));
                }
            },
        }
    }
    proof {
        assert(queue_views(queue@) =~= Seq::<(Seq<Seq<u8>>, bool)>::empty());
    }
    Ok(out)
}

/// The views of collected blob contents.
pub open spec fn blob_views(s: Seq<Vec<u8>>) -> Seq<Seq<u8>> {
    s.map_values(|b: Vec<u8>| b@)
}

/// Ingest a host tree, collecting into `blobs` the bytes of every file in
/// walk order.
pub fn ingest_tree(t: &InputTree, blobs: &mut Vec<Vec<u8>>) -> (r: Result<
    WithMeta<CompleteValue>,
    InputError,
>)
    ensures
        r is Ok <==> spec_ingest(*t) is Some,
        r matches Ok(v) ==> spec_ingest(*t) == Some(v.value.model()) && v.value.wf()
            && blob_views(final(blobs)@) == blob_views(old(blobs)@) + tree_contents(*t),
        r is Err ==> spec_ingest(*t) is None,
    decreases *t, 0nat,
{
    match t {
        InputTree::File { content, mode } => {
            let hash = BlobHash::for_content(content.as_slice());
            blobs.push(clone_bytes(content));
            proof {
                assert(blob_views(blobs@) =~= blob_views(old(blobs)@) + tree_contents(*t));
            }
            let executable = *mode & 0o111 != 0;
            Ok(
                WithMeta::new(
                    CompleteValue::File(
                        FileValue { content: hash, executable, resources: Directory::empty() },
                    ),
                ),
            )
        },
        InputTree::Symlink { target } => {
            proof {
                assert(blob_views(blobs@) =~= blob_views(old(blobs)@) + tree_contents(*t));
            }
            Ok(WithMeta::new(CompleteValue::Symlink { target: clone_bytes(target) }))
        },
        InputTree::Directory { entries } => {
            let n = entries.len();
            match ingest_entries(entries, n, blobs) {
                Ok(d) => Ok(WithMeta::new(CompleteValue::Directory(d))),
                Err(e) => Err(e),
            }
        },
    }
}

/// Ingest the first `n` entries of a directory listing.
fn ingest_entries(
    entries: &Vec<(Vec<u8>, InputTree)>,
    n: usize,
    blobs: &mut Vec<Vec<u8>>,
) -> (r: Result<Directory, InputError>)
    requires
        n <= entries@.len(),
    ensures
        r is Ok <==> spec_ingest_entries(entries@, n as int) is Some,
        r matches Ok(d) ==> spec_ingest_entries(entries@, n as int) == Some(d.model()) && d.wf()
            && blob_views(final(blobs)@) == blob_views(old(blobs)@) + entries_contents(
            entries@,
            n as int,
        ),
        r is Err ==> spec_ingest_entries(entries@, n as int) is None,
    decreases entries@, n,
{
    if n == 0 {
        proof {
            assert(blob_views(blobs@) =~= blob_views(old(blobs)@) + entries_contents(
                entries@,
                0,
            ));
        }
        return Ok(Directory::empty());
    }
    let mut acc = match ingest_entries(entries, n - 1, blobs) {
        Ok(d) => d,
        Err(e) => {
            return Err(e);
        },
    };
    let (name, sub) = &entries[n - 1];
    proof {
        assert(decreases_to!(entries@ => entries@[n - 1]));
    }
    let node = match ingest_tree(sub, blobs) {
        Ok(v) => v,
        Err(e) => {
            return Err(e);
        },
    };
    if !is_valid_key(name.as_slice()) {
        return Err(InputError::InvalidEntryName);
    }
    acc.set_entry(clone_bytes(name), node);
    proof {
        assert(blob_views(blobs@) =~= blob_views(old(blobs)@) + entries_contents(
            entries@,
            n as int,
        ));
    }
    Ok(acc)
}

} // verus!
