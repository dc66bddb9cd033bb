//! The resolver: reduction of lazy values to complete values.
//!
//! Every lazy variant has a single reduction rule, written down once as
//! `spec_resolve`; the executable resolver is proved to return exactly that
//! reduction, so any two resolutions of equal lazy values agree. The
//! in-flight table models the single-flight discipline: the first caller to
//! begin a fingerprint leads and executes the reduction, every later caller
//! waits for the leader's result.

use vstd::prelude::*;

use crate::directory::{
    encode_directory_into, encode_file_into, push_bytes, push_len, Directory,
};
use crate::hashing::{blake3_hash, blake3_of, bytes_eq};
use crate::value::{
    encode_model, len_bytes, merge_models, CompleteValue, FileValue, ValueModel, WithMeta,
};

verus! {

broadcast use vstd::std_specs::vec::axiom_vec_index_decreases, vstd::std_specs::vec::axiom_vec_decreases_to_view;

/// An unresolved artifact value: every complete variant, already resolved,
/// plus the lazy combinators.
#[derive(Debug)]
pub enum LazyValue {
    File(FileValue),
    Directory(Directory),
    Symlink { target: Vec<u8> },
    /// Resolve each child to a directory, then overlay them left to right,
    /// right-biased.
    Merge { directories: Vec<WithMeta<LazyValue>> },
}

/// Well-formedness of a run of lazy values.
pub open spec fn lazy_seq_wf(ds: Seq<WithMeta<LazyValue>>) -> bool
    decreases ds,
{
    if ds.len() == 0 {
        true
    } else {
        lazy_seq_wf(ds.drop_last()) && lazy_wf(ds.last().value)
    }
}

/// A well-formed lazy value: every complete value in it is well formed.
pub open spec fn lazy_wf(l: LazyValue) -> bool
    decreases l,
{
    match l {
        LazyValue::File(f) => f.wf(),
        LazyValue::Directory(d) => d.wf(),
        LazyValue::Symlink { target } => true,
        LazyValue::Merge { directories } => lazy_seq_wf(directories@),
    }
}

/// The reduction rule of every lazy variant: already-complete variants
/// reduce to themselves; a merge reduces each child, requires each to be a
/// directory, and overlays them left to right, right-biased. `None` is a
/// failed reduction.
pub open spec fn spec_resolve(l: LazyValue) -> Option<ValueModel>
    decreases l,
{
    match l {
        LazyValue::File(f) => Some(f.model()),
        LazyValue::Directory(d) => Some(ValueModel::Directory { entries: d.model() }),
        LazyValue::Symlink { target } => Some(ValueModel::Symlink { target: target@ }),
        LazyValue::Merge { directories } => match spec_resolve_merge(directories@) {
            Some(entries) => Some(ValueModel::Directory { entries }),
            None => None,
        },
    }
}

/// The fold of a merge: the empty directory overlaid with each resolved
/// child in order.
pub open spec fn spec_resolve_merge(ds: Seq<WithMeta<LazyValue>>) -> Option<
    Seq<(Seq<u8>, ValueModel)>,
>
    decreases ds,
{
    if ds.len() == 0 {
        Some(Seq::empty())
    } else {
        match (spec_resolve_merge(ds.drop_last()), spec_resolve(ds.last().value)) {
            (Some(acc), Some(ValueModel::Directory { entries })) => Some(
                merge_models(acc, entries),
            ),
            (_, _) => None,
        }
    }
}

/// An error of a resolution.
#[derive(Debug)]
pub enum ResolveError {
    /// A merge child did not resolve to a directory.
    MergeOfNonDirectory,
}

/// Reduce a lazy value to a complete value.
///
/// The result is pinned to `spec_resolve`: resolution succeeds exactly when
/// the reduction is defined, and then returns exactly the reduction, under
/// the metadata of the input.
pub fn resolve(lazy: WithMeta<LazyValue>) -> (r: Result<WithMeta<CompleteValue>, ResolveError>)
    requires
        lazy_wf(lazy.value),
    ensures
        r is Ok <==> spec_resolve(lazy.value) is Some,
        r matches Ok(c) ==> spec_resolve(lazy.value) == Some(c.value.model()) && c.value.wf()
            && c.meta == lazy.meta,
    decreases lazy,
{
    let ghost l0 = lazy;
    let WithMeta { value, meta } = lazy;
    match value {
        LazyValue::File(f) => Ok(WithMeta { value: CompleteValue::File(f), meta }),
        LazyValue::Directory(d) => Ok(WithMeta { value: CompleteValue::Directory(d), meta }),
        LazyValue::Symlink { target } => Ok(
            WithMeta { value: CompleteValue::Symlink { target }, meta },
        ),
        LazyValue::Merge { directories } => {
            proof {
                assert(decreases_to!(l0 => directories@));
            }
            match resolve_merge_children(directories) {
                Ok(d) => Ok(WithMeta { value: CompleteValue::Directory(d), meta }),
                Err(e) => Err(e),
            }
        },
    }
}

/// Reduce the children of a merge and overlay them left to right.
fn resolve_merge_children(directories: Vec<WithMeta<LazyValue>>) -> (r: Result<
    Directory,
    ResolveError,
>)
    requires
        lazy_seq_wf(directories@),
    ensures
        r is Ok <==> spec_resolve_merge(directories@) is Some,
        r matches Ok(d) ==> spec_resolve_merge(directories@) == Some(d.model()) && d.wf(),
    decreases directories@,
{
    let ghost ds0 = directories@;
    let mut rest = directories;
    let child = match rest.pop() {
        None => {
            return Ok(Directory::empty());
        },
        Some(c) => c,
    };
    proof {
        assert(rest@ == ds0.drop_last());
        assert(child == ds0.last());
        assert(decreases_to!(ds0 => child));
    }
    let acc = match resolve_merge_children(rest) {
        Ok(a) => a,
        Err(e) => {
            return Err(e);
        },
    };
    let resolved = match resolve(child) {
        Ok(c) => c,
        Err(e) => {
            return Err(e);
        },
    };
    match resolved.value {
        CompleteValue::Directory(d2) => Ok(acc.merge(d2)),
        _ => Err(ResolveError::MergeOfNonDirectory),
    }
}

/// Resolver determinism: the reduction is a function of the lazy value, so
/// any two complete values that resolutions of the same lazy value return
/// have equal models.
pub proof fn lemma_resolver_deterministic(v: LazyValue, a: CompleteValue, b: CompleteValue)
    requires
        spec_resolve(v) == Some(a.model()),
        spec_resolve(v) == Some(b.model()),
    ensures
        a.model() == b.model(),
{
}

/// Merge semantics: a merge whose children are two already-complete
/// directories resolves to the first deep-merged with the second,
/// right-biased. `ds` is the view of the merge's `directories`, so this
/// speaks of `resolve(Merge { directories })` through `spec_resolve`.
pub proof fn lemma_merge_of_two(ds: Seq<WithMeta<LazyValue>>, e1: Directory, e2: Directory)
    requires
        ds.len() == 2,
        ds[0].value == LazyValue::Directory(e1),
        ds[1].value == LazyValue::Directory(e2),
    ensures
        spec_resolve_merge(ds) == Some(merge_models(e1.model(), e2.model())),
{
    let s1 = seq![ds[0]];
    assert(ds.drop_last() =~= s1);
    assert(s1.drop_last() =~= Seq::<WithMeta<LazyValue>>::empty());
    assert(s1.last() == ds[0]);
    assert(spec_resolve(ds[0].value) == Some(ValueModel::Directory { entries: e1.model() }));
    assert(spec_resolve_merge(s1.drop_last()) == Some(
        Seq::<(Seq<u8>, ValueModel)>::empty(),
    ));
    assert(spec_resolve_merge(s1) == Some(merge_models(Seq::empty(), e1.model())));
    crate::value::lemma_merge_empty(e1.model());
    assert(ds.last() == ds[1]);
    assert(spec_resolve(ds[1].value) == Some(ValueModel::Directory { entries: e2.model() }));
    assert(spec_resolve_merge(ds) == Some(merge_models(e1.model(), e2.model())));
}

// ---------------------------------------------------------------------------
// Fingerprints
// ---------------------------------------------------------------------------

/// The canonical byte form of a lazy value: already-complete variants
/// encode as their models; a merge encodes its children in order under its
/// own tag. Metadata takes no part, so values equal up to metadata have
/// equal encodings.
pub open spec fn encode_lazy(l: LazyValue) -> Seq<u8>
    decreases l,
{
    match l {
        LazyValue::File(f) => encode_model(f.model()),
        LazyValue::Directory(d) => encode_model(ValueModel::Directory { entries: d.model() }),
        LazyValue::Symlink { target } => encode_model(ValueModel::Symlink { target: target@ }),
        LazyValue::Merge { directories } => seq![3u8] + len_bytes(directories@.len() as u64)
            + encode_lazy_children(directories@),
    }
}

/// The canonical byte form of a merge's children, in order.
pub open spec fn encode_lazy_children(ds: Seq<WithMeta<LazyValue>>) -> Seq<u8>
    decreases ds,
{
    if ds.len() == 0 {
        Seq::empty()
    } else {
        encode_lazy_children(ds.drop_last()) + encode_lazy(ds.last().value)
    }
}

/// Append the canonical form of a lazy value.
fn encode_lazy_into(l: &LazyValue, out: &mut Vec<u8>)
    ensures
        final(out)@ == old(out)@ + encode_lazy(*l),
    decreases *l,
{
    match l {
        LazyValue::File(f) => {
            encode_file_into(f, out);
        },
        LazyValue::Directory(d) => {
            encode_directory_into(d, out);
        },
        LazyValue::Symlink { target } => {
            out.push(2u8);
            push_len(out, target.len() as u64);
            push_bytes(out, target.as_slice());
            proof {
                assert(out@ =~= old(out)@ + encode_lazy(*l));
            }
        },
        LazyValue::Merge { directories } => {
            out.push(3u8);
            push_len(out, directories.len() as u64);
            let ghost base = out@;
            let n = directories.len();
            let mut i: usize = 0;
            proof {
                assert(encode_lazy_children(directories@.take(0)) =~= Seq::<u8>::empty());
                assert(out@ =~= base + encode_lazy_children(directories@.take(0)));
            }
            while i < n
                invariant
                    0 <= i <= n,
                    n == directories@.len(),
                    out@ == base + encode_lazy_children(directories@.take(i as int)),
                    decreases_to!(*l => directories@),
                decreases n - i,
            {
                let child = &directories[i];
                proof {
                    assert(decreases_to!(directories@ => directories@[i as int]));
                }
                encode_lazy_into(&child.value, out);
                proof {
                    assert(directories@.take(i + 1).drop_last() =~= directories@.take(i as int));
                    assert(directories@.take(i + 1).last() == directories@[i as int]);
                    assert(out@ =~= base + encode_lazy_children(directories@.take(i + 1)));
                }
                i = i + 1;
            }
            proof {
                assert(directories@.take(n as int) =~= directories@);
                assert(out@ =~= old(out)@ + encode_lazy(*l));
            }
        },
    }
}

/// The structural fingerprint of a lazy value: the BLAKE3 hash of its
/// canonical encoding. Values equal up to metadata share a fingerprint, so
/// they share one memoization slot.
pub fn fingerprint(lazy: &LazyValue) -> (r: Vec<u8>)
    ensures
        r@ == blake3_of(encode_lazy(*lazy)),
        r@.len() == 32,
{
    let mut encoded: Vec<u8> = Vec::new();
    encode_lazy_into(lazy, &mut encoded);
    blake3_hash(encoded.as_slice())
}

// ---------------------------------------------------------------------------
// Single flight
// ---------------------------------------------------------------------------

/// The outcome of entering the in-flight table.
pub enum BeginResolve {
    /// The fingerprint was absent: the caller leads and must execute the
    /// reduction.
    Lead,
    /// The fingerprint was already present: the caller waits for the
    /// leader's result.
    Wait,
}

/// The process-wide table of fingerprints whose resolution has begun. One
/// caller leads each fingerprint; everyone else waits and shares the
/// leader's result.
pub struct FlightTable {
    fingerprints: Vec<Vec<u8>>,
    results: Vec<(Vec<u8>, WithMeta<CompleteValue>)>,
}

/// The model the first slot bearing a fingerprint records.
pub open spec fn results_lookup(
    s: Seq<(Vec<u8>, WithMeta<CompleteValue>)>,
    fp: Seq<u8>,
) -> Option<ValueModel>
    decreases s.len(),
{
    if s.len() == 0 {
        None
    } else if s[0].0@ == fp {
        Some(s[0].1.value.model())
    } else {
        results_lookup(s.drop_first(), fp)
    }
}

impl FlightTable {
    /// Whether resolution of a fingerprint has begun.
    pub closed spec fn has(self, fp: Seq<u8>) -> bool {
        exists|i: int| 0 <= i < self.fingerprints@.len() && (#[trigger] self.fingerprints@[i])@ == fp
    }

    /// The model of the result recorded for a fingerprint, if the
    /// fingerprint's leader has completed.
    pub closed spec fn result_model(self, fp: Seq<u8>) -> Option<ValueModel> {
        results_lookup(self.results@, fp)
    }

    /// An empty table.
    pub fn new() -> (r: FlightTable)
        ensures
            forall|k: Seq<u8>| !r.has(k),
            forall|k: Seq<u8>| r.result_model(k) is None,
    {
        FlightTable { fingerprints: Vec::new(), results: Vec::new() }
    }

    /// Enter the table under a fingerprint: the caller leads exactly when
    /// the fingerprint was absent, and the fingerprint is present after.
    pub fn begin_resolve(&mut self, fp: &[u8]) -> (r: BeginResolve)
        ensures
            r is Lead <==> !old(self).has(fp@),
            final(self).has(fp@),
            forall|k: Seq<u8>| old(self).has(k) ==> final(self).has(k),
            forall|k: Seq<u8>| final(self).has(k) ==> old(self).has(k) || k == fp@,
            forall|k: Seq<u8>| final(self).result_model(k) == old(self).result_model(k),
    {
        let mut i: usize = 0;
        while i < self.fingerprints.len()
            invariant
                self == old(self),
                0 <= i <= self.fingerprints@.len(),
                forall|j: int| 0 <= j < i ==> (#[trigger] self.fingerprints@[j])@ != fp@,
            decreases self.fingerprints@.len() - i,
        {
            if bytes_eq(self.fingerprints[i].as_slice(), fp) {
                proof {
                    assert(self.fingerprints@[i as int]@ == fp@);
                }
                return BeginResolve::Wait;
            }
            i = i + 1;
        }
        proof {
            assert forall|w: int|
                0 <= w < self.fingerprints@.len() implies (#[trigger] self.fingerprints@[w])@
                != fp@ by {}
        }
        let mut owned: Vec<u8> = Vec::new();
        let mut j: usize = 0;
        while j < fp.len()
            invariant
                0 <= j <= fp@.len(),
                owned@ == fp@.subrange(0, j as int),
            decreases fp@.len() - j,
        {
            owned.push(fp[j]);
            j = j + 1;
        }
        proof {
            assert(owned@ =~= fp@);
        }
        let ghost n = self.fingerprints@.len();
        self.fingerprints.push(owned);
        proof {
            assert(self.fingerprints@[n as int]@ == fp@);
            assert forall|k: Seq<u8>| old(self).has(k) implies self.has(k) by {
                let w = choose|w: int|
                    0 <= w < old(self).fingerprints@.len() && (#[trigger] old(
                        self,
                    ).fingerprints@[w])@ == k;
                assert(self.fingerprints@[w]@ == k);
            }
            assert forall|k: Seq<u8>| self.has(k) implies old(self).has(k) || k == fp@ by {
                let w = choose|w: int|
                    0 <= w < self.fingerprints@.len() && (#[trigger] self.fingerprints@[w])@
                        == k;
                if w < n {
                    assert(old(self).fingerprints@[w]@ == k);
                }
            }
            if old(self).has(fp@) {
                let w = choose|w: int|
                    0 <= w < old(self).fingerprints@.len() && (#[trigger] old(
                        self,
                    ).fingerprints@[w])@ == fp@;
            }
        }
        BeginResolve::Lead
    }

    /// Record the leader's completed result for a fingerprint.
    pub fn complete_resolve(&mut self, fp: &[u8], value: WithMeta<CompleteValue>)
        requires
            old(self).has(fp@),
            old(self).result_model(fp@) is None,
        ensures
            final(self).result_model(fp@) == Some(value.value.model()),
            forall|k: Seq<u8>|
                k != fp@ ==> final(self).result_model(k) == old(self).result_model(k),
            forall|k: Seq<u8>| final(self).has(k) == old(self).has(k),
    {
        let mut owned: Vec<u8> = Vec::new();
        let mut j: usize = 0;
        while j < fp.len()
            invariant
                0 <= j <= fp@.len(),
                owned@ == fp@.subrange(0, j as int),
            decreases fp@.len() - j,
        {
            owned.push(fp[j]);
            j = j + 1;
        }
        proof {
            assert(owned@ =~= fp@);
        }
        let ghost before = self.results@;
        self.results.insert(0, (owned, value));
        proof {
            assert(self.results@[0].0@ == fp@);
            assert(self.results@.drop_first() =~= before);
            assert(self.fingerprints@ == old(self).fingerprints@);
            assert forall|k: Seq<u8>| self.has(k) == old(self).has(k) by {
                if self.has(k) {
                    let w = choose|w: int|
                        0 <= w < self.fingerprints@.len() && (#[trigger] self.fingerprints@[w])@
                            == k;
                    assert(old(self).fingerprints@[w]@ == k);
                }
                if old(self).has(k) {
                    let w = choose|w: int|
                        0 <= w < old(self).fingerprints@.len() && (#[trigger] old(
                            self,
                        ).fingerprints@[w])@ == k;
                    assert(self.fingerprints@[w]@ == k);
                }
            }
        }
    }

    /// Look the recorded result of a fingerprint up.
    pub fn cached_result(&self, fp: &[u8]) -> (r: Option<&WithMeta<CompleteValue>>)
        ensures
            r is Some <==> self.result_model(fp@) is Some,
            r matches Some(node) ==> self.result_model(fp@) == Some(node.value.model()),
    {
        let mut i: usize = 0;
        proof {
            assert(self.results@.skip(0) =~= self.results@);
        }
        while i < self.results.len()
            invariant
                0 <= i <= self.results@.len(),
                results_lookup(self.results@, fp@) == results_lookup(
                    self.results@.skip(i as int),
                    fp@,
                ),
            decreases self.results@.len() - i,
        {
            proof {
                assert(self.results@.skip(i as int)[0] == self.results@[i as int]);
                assert(self.results@.skip(i as int).drop_first() =~= self.results@.skip(i + 1));
            }
            if bytes_eq(self.results[i].0.as_slice(), fp) {
                return Some(&self.results[i].1);
            }
            i = i + 1;
        }
        None
    }

    /// Single flight: fingerprints are never removed, so once one is
    /// present, every later `begin_resolve` under it waits; at most one
    /// caller ever leads a given fingerprint.
    pub proof fn lemma_single_flight(pre: FlightTable, post: FlightTable, fp: Seq<u8>)
        requires
            pre.has(fp),
            forall|k: Seq<u8>| pre.has(k) ==> post.has(k),
        ensures
            post.has(fp),
    {
    }

    /// Shared results: the table records one model per fingerprint, so
    /// every waiter that reads the cached result observes the same model
    /// the leader recorded.
    pub proof fn lemma_shared_result(t: FlightTable, fp: Seq<u8>, a: ValueModel, b: ValueModel)
        requires
            t.result_model(fp) == Some(a),
            t.result_model(fp) == Some(b),
        ensures
            a == b,
    {
    }
}

} // verus!
