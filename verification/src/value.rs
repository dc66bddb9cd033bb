//! The value model: complete artifact values (files, directories, symlinks),
//! their mathematical model, and the right-biased deep-merge semantics over
//! that model.
//!
//! The model of a directory is the sequence of its `(name, value)` pairs in
//! iteration order; a well-formed directory keeps that sequence strictly
//! sorted by name, so the sequence determines the mapping and the order at
//! once.

use vstd::prelude::*;

use crate::directory::{lex_less, valid_key, Directory};
use crate::hashing::BlobHash;

verus! {

broadcast use vstd::std_specs::vec::axiom_vec_index_decreases, vstd::std_specs::vec::axiom_vec_decreases_to_view;

/// Source metadata carried beside a value for diagnostics. It takes part in
/// neither hashing nor equality of the inner value: the model of a value
/// ignores it.
#[derive(Debug)]
pub struct ValueMeta {
    pub tag: String,
}

/// A value paired with optional source metadata.
#[derive(Debug)]
pub struct WithMeta<T> {
    pub value: T,
    pub meta: Option<ValueMeta>,
}

impl<T> WithMeta<T> {
    /// Wrap a value without metadata.
    pub fn new(value: T) -> (r: Self)
        ensures
            r.value == value,
            r.meta is None,
    {
        WithMeta { value, meta: None }
    }

    /// Wrap a value with metadata.
    pub fn with_meta(value: T, meta: ValueMeta) -> (r: Self)
        ensures
            r.value == value,
            r.meta == Some(meta),
    {
        WithMeta { value, meta: Some(meta) }
    }
}

/// The mathematical model of a complete value. A directory is the sequence
/// of its `(name, child model)` pairs in iteration order; files carry their
/// content digest, their executable bit and their resources; symlink
/// targets are opaque bytes.
#[verifier::ext_equal]
pub ghost enum ValueModel {
    File { content: Seq<u8>, executable: bool, resources: Seq<(Seq<u8>, ValueModel)> },
    Directory { entries: Seq<(Seq<u8>, ValueModel)> },
    Symlink { target: Seq<u8> },
}

/// Entry pairs strictly sorted by name under valid keys, recursively.
pub open spec fn dir_model_wf(m: Seq<(Seq<u8>, ValueModel)>) -> bool
    decreases m,
{
    &&& forall|i: int, j: int| 0 <= i < j < m.len() ==> lex_less(m[i].0, m[j].0)
    &&& forall|i: int| 0 <= i < m.len() ==> valid_key((#[trigger] m[i]).0)
    &&& forall|i: int| 0 <= i < m.len() ==> value_model_wf((#[trigger] m[i]).1)
}

/// A well-formed value model: every directory in it is sorted.
pub open spec fn value_model_wf(v: ValueModel) -> bool
    decreases v,
{
    match v {
        ValueModel::File { content, executable, resources } => content.len() == 32
            && dir_model_wf(resources),
        ValueModel::Directory { entries } => dir_model_wf(entries),
        ValueModel::Symlink { target } => true,
    }
}

/// The value bound to a name in a directory model: the first pair that
/// bears the name.
pub open spec fn model_lookup(m: Seq<(Seq<u8>, ValueModel)>, k: Seq<u8>) -> Option<ValueModel>
    decreases m.len(),
{
    if m.len() == 0 {
        None
    } else if m[0].0 == k {
        Some(m[0].1)
    } else {
        model_lookup(m.drop_first(), k)
    }
}

/// A fully resolved file: its content blob, whether it is executable, and
/// the side-car resources it needs at run time.
#[derive(Debug)]
pub struct FileValue {
    pub content: BlobHash,
    pub executable: bool,
    pub resources: Directory,
}

/// A fully resolved artifact value.
#[derive(Debug)]
pub enum CompleteValue {
    File(FileValue),
    Directory(Directory),
    Symlink { target: Vec<u8> },
}

impl FileValue {
    pub open spec fn model(self) -> ValueModel
        decreases self,
    {
        ValueModel::File {
            content: self.content@,
            executable: self.executable,
            resources: self.resources.model(),
        }
    }

    pub open spec fn wf(self) -> bool
        decreases self,
    {
        self.content.wf() && self.resources.wf()
    }
}

impl CompleteValue {
    pub open spec fn model(self) -> ValueModel
        decreases self,
    {
        match self {
            CompleteValue::File(f) => f.model(),
            CompleteValue::Directory(d) => ValueModel::Directory { entries: d.model() },
            CompleteValue::Symlink { target } => ValueModel::Symlink { target: target@ },
        }
    }

    pub open spec fn wf(self) -> bool
        decreases self,
    {
        match self {
            CompleteValue::File(f) => f.wf(),
            CompleteValue::Directory(d) => d.wf(),
            CompleteValue::Symlink { target } => true,
        }
    }
}

/// A complete value is well formed exactly when its model is.
pub proof fn lemma_value_wf_model(v: CompleteValue)
    ensures
        v.wf() <==> value_model_wf(v.model()),
{
    match v {
        CompleteValue::File(f) => {},
        CompleteValue::Directory(d) => {},
        CompleteValue::Symlink { target } => {},
    }
}

// ---------------------------------------------------------------------------
// Canonical encoding
// ---------------------------------------------------------------------------

/// A length as eight little-endian bytes.
pub open spec fn len_bytes(n: u64) -> Seq<u8> {
    Seq::new(8, |i: int| ((n >> ((8 * i) as u64)) & 0xff) as u8)
}

/// The canonical byte form of a value model, used for structural
/// fingerprints: a tag byte per variant, lengths as eight little-endian
/// bytes, directory entries in their sorted order. Metadata takes no part.
pub open spec fn encode_model(v: ValueModel) -> Seq<u8>
    decreases v,
{
    match v {
        ValueModel::File { content, executable, resources } => seq![0u8] + len_bytes(
            content.len() as u64,
        ) + content + seq![if executable { 1u8 } else { 0u8 }] + len_bytes(
            resources.len() as u64,
        ) + encode_dir_pairs(resources),
        ValueModel::Directory { entries } => seq![1u8] + len_bytes(entries.len() as u64)
            + encode_dir_pairs(entries),
        ValueModel::Symlink { target } => seq![2u8] + len_bytes(target.len() as u64) + target,
    }
}

/// The canonical byte form of a directory model's entries, in order.
pub open spec fn encode_dir_pairs(m: Seq<(Seq<u8>, ValueModel)>) -> Seq<u8>
    decreases m,
{
    if m.len() == 0 {
        Seq::empty()
    } else {
        encode_dir_pairs(m.drop_last()) + len_bytes(m.last().0.len() as u64) + m.last().0
            + encode_model(m.last().1)
    }
}

/// Copy a complete value; the copy has the same model.
pub fn clone_value(v: &CompleteValue) -> (r: CompleteValue)
    ensures
        r.model() == v.model(),
    decreases v,
{
    match v {
        CompleteValue::File(f) => CompleteValue::File(
            FileValue {
                content: f.content.clone(),
                executable: f.executable,
                resources: f.resources.duplicate(),
            },
        ),
        CompleteValue::Directory(d) => CompleteValue::Directory(d.duplicate()),
        CompleteValue::Symlink { target } => CompleteValue::Symlink {
            target: crate::hashing::clone_bytes(target),
        },
    }
}

/// Copy a value and its metadata; the copy's value has the same model.
pub fn clone_node(node: &WithMeta<CompleteValue>) -> (r: WithMeta<CompleteValue>)
    ensures
        r.value.model() == node.value.model(),
    decreases node,
{
    let meta = match &node.meta {
        Some(m) => Some(ValueMeta { tag: m.tag.clone() }),
        None => None,
    };
    WithMeta { value: clone_value(&node.value), meta }
}

// ---------------------------------------------------------------------------
// Merge semantics
// ---------------------------------------------------------------------------

/// Right-biased merge of two values occupying the same slot: two
/// directories merge recursively; in every other pairing the right value
/// wins.
pub open spec fn merge_value(l: ValueModel, r: ValueModel) -> ValueModel
    decreases r, 0nat,
{
    match (l, r) {
        (
            ValueModel::Directory { entries: le },
            ValueModel::Directory { entries: re },
        ) => ValueModel::Directory { entries: merge_models(le, re) },
        (_, _) => r,
    }
}

/// Right-biased deep merge of two sorted directory models: the ordered
/// union of their names, with slots present on both sides merged by
/// `merge_value`.
pub open spec fn merge_models(
    l: Seq<(Seq<u8>, ValueModel)>,
    r: Seq<(Seq<u8>, ValueModel)>,
) -> Seq<(Seq<u8>, ValueModel)>
    decreases r, l.len(),
{
    if r.len() == 0 {
        l
    } else if l.len() == 0 {
        r
    } else if lex_less(l[0].0, r[0].0) {
        seq![l[0]] + merge_models(l.drop_first(), r)
    } else if lex_less(r[0].0, l[0].0) {
        seq![r[0]] + merge_models(l, r.drop_first())
    } else {
        seq![(r[0].0, merge_value(l[0].1, r[0].1))] + merge_models(l.drop_first(), r.drop_first())
    }
}

/// Merging with the empty directory changes nothing.
pub proof fn lemma_merge_empty(l: Seq<(Seq<u8>, ValueModel)>)
    ensures
        merge_models(l, Seq::empty()) == l,
        merge_models(Seq::empty(), l) == l,
{
    if l.len() == 0 {
        assert(merge_models(l, Seq::empty()) =~= l);
    }
}

/// Every name below both heads stays below the merge's head, and a merge of
/// well-formed models is well formed: sorted, under the same valid keys,
/// with well-formed values.
pub proof fn lemma_merge_models_wf(
    l: Seq<(Seq<u8>, ValueModel)>,
    r: Seq<(Seq<u8>, ValueModel)>,
)
    requires
        dir_model_wf(l),
        dir_model_wf(r),
    ensures
        dir_model_wf(merge_models(l, r)),
        merge_models(l, r).len() > 0 ==> (l.len() > 0 && merge_models(l, r)[0].0 == l[0].0) || (
        r.len() > 0 && merge_models(l, r)[0].0 == r[0].0),
    decreases r, l.len(),
{
    let m = merge_models(l, r);
    if r.len() == 0 || l.len() == 0 {
    } else {
        let lh = l[0];
        let rh = r[0];
        assert(dir_model_wf(l.drop_first()));
        assert(dir_model_wf(r.drop_first()));
        if lex_less(lh.0, rh.0) {
            lemma_merge_models_wf(l.drop_first(), r);
            let t = merge_models(l.drop_first(), r);
            assert forall|i: int, j: int| 0 <= i < j < m.len() implies lex_less(m[i].0, m[j].0) by {
                if i == 0 {
                    assert(m[j] == t[j - 1]);
                    if t.len() > 0 && j == 1 {
                        if l.drop_first().len() > 0 && t[0].0 == l.drop_first()[0].0 {
                            assert(lex_less(l[0].0, l[1].0));
                        }
                    } else {
                        assert(lex_less(t[0].0, t[j - 1].0));
                        if l.drop_first().len() > 0 && t[0].0 == l.drop_first()[0].0 {
                            assert(lex_less(lh.0, t[0].0));
                        } else {
                            assert(lex_less(lh.0, t[0].0));
                        }
                        crate::directory::lemma_lex_trans(lh.0, t[0].0, t[j - 1].0);
                    }
                } else {
                    assert(m[i] == t[i - 1] && m[j] == t[j - 1]);
                }
            }
        } else if lex_less(rh.0, lh.0) {
            lemma_merge_models_wf(l, r.drop_first());
            let t = merge_models(l, r.drop_first());
            assert forall|i: int, j: int| 0 <= i < j < m.len() implies lex_less(m[i].0, m[j].0) by {
                if i == 0 {
                    assert(m[j] == t[j - 1]);
                    if j == 1 && t.len() > 0 {
                        if l.len() > 0 && t[0].0 == l[0].0 {
                        } else {
                            assert(lex_less(r[0].0, r[1].0));
                        }
                    } else {
                        assert(lex_less(t[0].0, t[j - 1].0));
                        assert(lex_less(rh.0, t[0].0));
                        crate::directory::lemma_lex_trans(rh.0, t[0].0, t[j - 1].0);
                    }
                } else {
                    assert(m[i] == t[i - 1] && m[j] == t[j - 1]);
                }
            }
        } else {
            crate::directory::lemma_lex_total(lh.0, rh.0);
            assert(lh.0 == rh.0);
            lemma_merge_value_wf(lh.1, rh.1);
            lemma_merge_models_wf(l.drop_first(), r.drop_first());
            let t = merge_models(l.drop_first(), r.drop_first());
            assert forall|i: int, j: int| 0 <= i < j < m.len() implies lex_less(m[i].0, m[j].0) by {
                if i == 0 {
                    assert(m[j] == t[j - 1]);
                    if j == 1 && t.len() > 0 {
                    } else {
                        assert(lex_less(t[0].0, t[j - 1].0));
                        assert(lex_less(rh.0, t[0].0));
                        crate::directory::lemma_lex_trans(rh.0, t[0].0, t[j - 1].0);
                    }
                } else {
                    assert(m[i] == t[i - 1] && m[j] == t[j - 1]);
                }
            }
        }
    }
}

/// A merge of well-formed values is well formed.
pub proof fn lemma_merge_value_wf(l: ValueModel, r: ValueModel)
    requires
        value_model_wf(l),
        value_model_wf(r),
    ensures
        value_model_wf(merge_value(l, r)),
    decreases r, 0nat,
{
    match (l, r) {
        (ValueModel::Directory { entries: le }, ValueModel::Directory { entries: re }) => {
            lemma_merge_models_wf(le, re);
        },
        (_, _) => {},
    }
}

/// Merging directories with disjoint names is their union: the result has
/// exactly the slots of both sides, each holding its own subtree
/// unchanged.
pub proof fn lemma_merge_disjoint(
    l: Seq<(Seq<u8>, ValueModel)>,
    r: Seq<(Seq<u8>, ValueModel)>,
)
    requires
        dir_model_wf(l),
        dir_model_wf(r),
        forall|i: int, j: int|
            0 <= i < l.len() && 0 <= j < r.len() ==> (#[trigger] l[i]).0 != (#[trigger] r[j]).0,
    ensures
        merge_models(l, r).len() == l.len() + r.len(),
        forall|i: int|
            0 <= i < l.len() ==> model_lookup(merge_models(l, r), (#[trigger] l[i]).0) == Some(
                l[i].1,
            ),
        forall|j: int|
            0 <= j < r.len() ==> model_lookup(merge_models(l, r), (#[trigger] r[j]).0) == Some(
                r[j].1,
            ),
    decreases r, l.len(),
{
    let m = merge_models(l, r);
    if r.len() == 0 {
        assert forall|i: int| 0 <= i < l.len() implies model_lookup(m, (#[trigger] l[i]).0)
            == Some(l[i].1) by {
            crate::directory::lemma_lookup_at(l, i);
        }
    } else if l.len() == 0 {
        assert forall|j: int| 0 <= j < r.len() implies model_lookup(m, (#[trigger] r[j]).0)
            == Some(r[j].1) by {
            crate::directory::lemma_lookup_at(r, j);
        }
    } else {
        crate::directory::lemma_lex_total(l[0].0, r[0].0);
        assert(l[0].0 != r[0].0);
        crate::directory::lemma_dir_model_wf_drop(l);
        crate::directory::lemma_dir_model_wf_drop(r);
        if lex_less(l[0].0, r[0].0) {
            assert forall|i: int, j: int|
                0 <= i < l.drop_first().len() && 0 <= j < r.len() implies (#[trigger] l.drop_first()[
            i]).0 != (#[trigger] r[j]).0 by {
                assert(l.drop_first()[i] == l[i + 1]);
            }
            lemma_merge_disjoint(l.drop_first(), r);
            let t = merge_models(l.drop_first(), r);
            assert(m == seq![l[0]] + t);
            assert(m.drop_first() =~= t);
            assert forall|i: int| 0 <= i < l.len() implies model_lookup(m, (#[trigger] l[i]).0)
                == Some(l[i].1) by {
                if i == 0 {
                    assert(m[0] == l[0]);
                } else {
                    crate::directory::lemma_lex_irrefl(l[0].0);
                    assert(lex_less(l[0].0, l[i].0));
                    if l[i].0 == l[0].0 {
                        assert(false);
                    }
                    assert(l.drop_first()[i - 1] == l[i]);
                }
            }
            assert forall|j: int| 0 <= j < r.len() implies model_lookup(m, (#[trigger] r[j]).0)
                == Some(r[j].1) by {
                assert(r[j].0 != l[0].0);
            }
        } else {
            assert(lex_less(r[0].0, l[0].0));
            assert forall|i: int, j: int|
                0 <= i < l.len() && 0 <= j < r.drop_first().len() implies (#[trigger] l[i]).0 != (
            #[trigger] r.drop_first()[j]).0 by {
                assert(r.drop_first()[j] == r[j + 1]);
            }
            lemma_merge_disjoint(l, r.drop_first());
            let t = merge_models(l, r.drop_first());
            assert(m == seq![r[0]] + t);
            assert(m.drop_first() =~= t);
            assert forall|j: int| 0 <= j < r.len() implies model_lookup(m, (#[trigger] r[j]).0)
                == Some(r[j].1) by {
                if j == 0 {
                    assert(m[0] == r[0]);
                } else {
                    crate::directory::lemma_lex_irrefl(r[0].0);
                    assert(lex_less(r[0].0, r[j].0));
                    if r[j].0 == r[0].0 {
                        assert(false);
                    }
                    assert(r.drop_first()[j - 1] == r[j]);
                }
            }
            assert forall|i: int| 0 <= i < l.len() implies model_lookup(m, (#[trigger] l[i]).0)
                == Some(l[i].1) by {
                assert(l[i].0 != r[0].0);
            }
        }
    }
}

// ---------------------------------------------------------------------------
// Sorted insertion into a directory model
// ---------------------------------------------------------------------------

/// Bind a name in a sorted directory model, keeping it sorted: replace the
/// slot that bears the name, or insert a new slot at its ordered position.
pub open spec fn sorted_put(
    m: Seq<(Seq<u8>, ValueModel)>,
    k: Seq<u8>,
    v: ValueModel,
) -> Seq<(Seq<u8>, ValueModel)>
    decreases m.len(),
{
    if m.len() == 0 {
        seq![(k, v)]
    } else if lex_less(k, m[0].0) {
        seq![(k, v)] + m
    } else if k == m[0].0 {
        seq![(k, v)] + m.drop_first()
    } else {
        seq![m[0]] + sorted_put(m.drop_first(), k, v)
    }
}

/// When the name is fresh and `pos` is its ordered position, `sorted_put`
/// is insertion at `pos`.
pub proof fn lemma_sorted_put_insert(
    m: Seq<(Seq<u8>, ValueModel)>,
    k: Seq<u8>,
    v: ValueModel,
    pos: int,
)
    requires
        0 <= pos <= m.len(),
        forall|i: int| 0 <= i < pos ==> lex_less((#[trigger] m[i]).0, k),
        forall|i: int| pos <= i < m.len() ==> lex_less(k, (#[trigger] m[i]).0),
    ensures
        sorted_put(m, k, v) == m.insert(pos, (k, v)),
    decreases m.len(),
{
    if m.len() == 0 {
        assert(sorted_put(m, k, v) =~= m.insert(0, (k, v)));
    } else if pos == 0 {
        assert(lex_less(k, m[0].0));
        assert(sorted_put(m, k, v) =~= m.insert(0, (k, v)));
    } else {
        assert(lex_less(m[0].0, k));
        crate::directory::lemma_lex_irrefl(k);
        if lex_less(k, m[0].0) {
            crate::directory::lemma_lex_trans(k, m[0].0, k);
        }
        assert(k != m[0].0);
        assert forall|i: int| 0 <= i < pos - 1 implies lex_less(
            (#[trigger] m.drop_first()[i]).0,
            k,
        ) by {
            assert(m.drop_first()[i] == m[i + 1]);
        }
        assert forall|i: int| pos - 1 <= i < m.drop_first().len() implies lex_less(
            k,
            (#[trigger] m.drop_first()[i]).0,
        ) by {
            assert(m.drop_first()[i] == m[i + 1]);
        }
        lemma_sorted_put_insert(m.drop_first(), k, v, pos - 1);
        assert(sorted_put(m, k, v) == seq![m[0]] + m.drop_first().insert(pos - 1, (k, v)));
        assert(sorted_put(m, k, v) =~= m.insert(pos, (k, v)));
    }
}

/// When slot `pos` bears the name, `sorted_put` is an update of that slot.
pub proof fn lemma_sorted_put_update(
    m: Seq<(Seq<u8>, ValueModel)>,
    k: Seq<u8>,
    v: ValueModel,
    pos: int,
)
    requires
        0 <= pos < m.len(),
        m[pos].0 == k,
        forall|i: int, j: int| 0 <= i < j < m.len() ==> lex_less((#[trigger] m[i]).0, (#[trigger] m[j]).0),
    ensures
        sorted_put(m, k, v) == m.update(pos, (k, v)),
    decreases m.len(),
{
    if pos == 0 {
        crate::directory::lemma_lex_irrefl(k);
        assert(sorted_put(m, k, v) =~= m.update(0, (k, v)));
    } else {
        assert(lex_less(m[0].0, m[pos].0));
        crate::directory::lemma_lex_irrefl(m[0].0);
        if lex_less(k, m[0].0) {
            crate::directory::lemma_lex_trans(m[0].0, k, m[0].0);
        }
        assert(k != m[0].0);
        assert(m.drop_first()[pos - 1] == m[pos]);
        assert forall|i: int, j: int| 0 <= i < j < m.drop_first().len() implies lex_less(
            (#[trigger] m.drop_first()[i]).0,
            (#[trigger] m.drop_first()[j]).0,
        ) by {
            assert(m.drop_first()[i] == m[i + 1]);
            assert(m.drop_first()[j] == m[j + 1]);
        }
        lemma_sorted_put_update(m.drop_first(), k, v, pos - 1);
        assert(sorted_put(m, k, v) == seq![m[0]] + m.drop_first().update(pos - 1, (k, v)));
        assert(sorted_put(m, k, v) =~= m.update(pos, (k, v)));
    }
}

/// Binding a valid name to a well-formed value keeps a model well formed.
pub proof fn lemma_sorted_put_wf(m: Seq<(Seq<u8>, ValueModel)>, k: Seq<u8>, v: ValueModel)
    requires
        dir_model_wf(m),
        valid_key(k),
        value_model_wf(v),
    ensures
        dir_model_wf(sorted_put(m, k, v)),
        model_lookup(sorted_put(m, k, v), k) == Some(v),
    decreases m.len(),
{
    let s = sorted_put(m, k, v);
    if m.len() == 0 {
        assert(s[0] == (k, v));
        assert(model_lookup(s, k) == Some(v));
    } else if lex_less(k, m[0].0) {
        assert(s[0] == (k, v));
        assert(model_lookup(s, k) == Some(v));
        assert forall|i: int, j: int| 0 <= i < j < s.len() implies lex_less(s[i].0, s[j].0) by {
            assert(s[j] == m[j - 1]);
            if i == 0 {
                if j == 1 {
                } else {
                    assert(lex_less(m[0].0, m[j - 1].0));
                    crate::directory::lemma_lex_trans(k, m[0].0, m[j - 1].0);
                }
            } else {
                assert(s[i] == m[i - 1]);
            }
        }
        assert forall|i: int| 0 <= i < s.len() implies valid_key((#[trigger] s[i]).0)
            && value_model_wf(s[i].1) by {
            if i > 0 {
                assert(s[i] == m[i - 1]);
            }
        }
    } else if k == m[0].0 {
        assert(s[0] == (k, v));
        assert(model_lookup(s, k) == Some(v));
        assert forall|i: int, j: int| 0 <= i < j < s.len() implies lex_less(s[i].0, s[j].0) by {
            assert(s[j] == m.drop_first()[j - 1] && m.drop_first()[j - 1] == m[j]);
            if i == 0 {
                assert(lex_less(m[0].0, m[j].0));
            } else {
                assert(s[i] == m[i]);
                assert(lex_less(m[i].0, m[j].0));
            }
        }
        assert forall|i: int| 0 <= i < s.len() implies valid_key((#[trigger] s[i]).0)
            && value_model_wf(s[i].1) by {
            if i > 0 {
                assert(s[i] == m[i]);
            }
        }
    } else {
        crate::directory::lemma_lex_total(k, m[0].0);
        assert(lex_less(m[0].0, k));
        assert(dir_model_wf(m.drop_first())) by {
            assert forall|i: int, j: int| 0 <= i < j < m.drop_first().len() implies lex_less(
                (#[trigger] m.drop_first()[i]).0,
                (#[trigger] m.drop_first()[j]).0,
            ) by {
                assert(m.drop_first()[i] == m[i + 1]);
                assert(m.drop_first()[j] == m[j + 1]);
            }
            assert forall|i: int| 0 <= i < m.drop_first().len() implies valid_key(
                (#[trigger] m.drop_first()[i]).0,
            ) && value_model_wf(m.drop_first()[i].1) by {
                assert(m.drop_first()[i] == m[i + 1]);
            }
        }
        lemma_sorted_put_wf(m.drop_first(), k, v);
        let t = sorted_put(m.drop_first(), k, v);
        lemma_sorted_put_head(m.drop_first(), k, v);
        assert(s.drop_first() =~= t);
        assert(model_lookup(s, k) == model_lookup(t, k));
        assert forall|i: int, j: int| 0 <= i < j < s.len() implies lex_less(s[i].0, s[j].0) by {
            assert(s[j] == t[j - 1]);
            if i == 0 {
                if t[j - 1].0 == k {
                } else {
                    let w = choose|w: int|
                        0 <= w < m.drop_first().len() && t[j - 1].0 == (#[trigger] m.drop_first()[
                        w]).0;
                    assert(m.drop_first()[w] == m[w + 1]);
                    assert(lex_less(m[0].0, m[w + 1].0));
                }
            } else {
                assert(s[i] == t[i - 1]);
            }
        }
        assert forall|i: int| 0 <= i < s.len() implies valid_key((#[trigger] s[i]).0)
            && value_model_wf(s[i].1) by {
            if i > 0 {
                assert(s[i] == t[i - 1]);
            }
        }
    }
}

/// Every name in `sorted_put(m, k, v)` is `k` or a name of `m`.
pub proof fn lemma_sorted_put_head(m: Seq<(Seq<u8>, ValueModel)>, k: Seq<u8>, v: ValueModel)
    ensures
        forall|j: int|
            0 <= j < sorted_put(m, k, v).len() ==> (#[trigger] sorted_put(m, k, v)[j].0) == k
                || exists|w: int| 0 <= w < m.len() && sorted_put(m, k, v)[j].0 == (#[trigger] m[w]).0,
    decreases m.len(),
{
    let s = sorted_put(m, k, v);
    if m.len() == 0 {
    } else if lex_less(k, m[0].0) || k == m[0].0 {
    } else {
        lemma_sorted_put_head(m.drop_first(), k, v);
        let t = sorted_put(m.drop_first(), k, v);
        assert forall|j: int| 0 <= j < s.len() implies (#[trigger] s[j].0) == k || exists|w: int|
            0 <= w < m.len() && s[j].0 == (#[trigger] m[w]).0 by {
            if j == 0 {
                assert(s[0].0 == m[0].0);
            } else {
                assert(s[j] == t[j - 1]);
                if t[j - 1].0 == k {
                } else {
                    let w = choose|w: int| 0 <= w < m.drop_first().len() && t[j - 1].0
                        == m.drop_first()[w].0;
                    assert(s[j].0 == m[w + 1].0);
                }
            }
        }
    }
}

// ---------------------------------------------------------------------------
// Inserting along a slash-separated path
// ---------------------------------------------------------------------------

/// The value that holds `v` under the chain of components `cs`: `v` itself
/// for the empty chain, else a single-entry directory for each component.
pub open spec fn chain_model(cs: Seq<Seq<u8>>, v: ValueModel) -> ValueModel
    decreases cs.len(),
{
    if cs.len() == 0 {
        v
    } else {
        ValueModel::Directory { entries: seq![(cs[0], chain_model(cs.drop_first(), v))] }
    }
}

/// A chain of valid components over a well-formed value is well formed.
pub proof fn lemma_chain_model_wf(cs: Seq<Seq<u8>>, v: ValueModel)
    requires
        forall|i: int| 0 <= i < cs.len() ==> valid_key(#[trigger] cs[i]),
        value_model_wf(v),
    ensures
        value_model_wf(chain_model(cs, v)),
    decreases cs.len(),
{
    if cs.len() > 0 {
        lemma_chain_model_wf(cs.drop_first(), v);
    }
}

/// Insert a value under a path of components: intermediate directories are
/// created where missing, and the insertion fails (`None`) when a
/// non-directory occupies an intermediate component.
pub open spec fn spec_insert_path(
    m: Seq<(Seq<u8>, ValueModel)>,
    cs: Seq<Seq<u8>>,
    v: ValueModel,
) -> Option<Seq<(Seq<u8>, ValueModel)>>
    decreases cs.len(),
{
    if cs.len() <= 0 {
        None
    } else if cs.len() == 1 {
        Some(sorted_put(m, cs[0], v))
    } else {
        match model_lookup(m, cs[0]) {
            Some(ValueModel::Directory { entries }) => match spec_insert_path(
                entries,
                cs.drop_first(),
                v,
            ) {
                Some(sub) => Some(sorted_put(m, cs[0], ValueModel::Directory { entries: sub })),
                None => None,
            },
            Some(_) => None,
            None => match spec_insert_path(Seq::empty(), cs.drop_first(), v) {
                Some(sub) => Some(sorted_put(m, cs[0], ValueModel::Directory { entries: sub })),
                None => None,
            },
        }
    }
}

/// Inserting into the empty model builds exactly the chain of components.
pub proof fn lemma_insert_path_empty(cs: Seq<Seq<u8>>, v: ValueModel)
    requires
        cs.len() > 0,
    ensures
        spec_insert_path(Seq::empty(), cs, v) == Some(
            seq![(cs[0], chain_model(cs.drop_first(), v))],
        ),
    decreases cs.len(),
{
    if cs.len() == 1 {
        assert(chain_model(cs.drop_first(), v) == v);
    } else {
        lemma_insert_path_empty(cs.drop_first(), v);
        let sub = seq![(cs.drop_first()[0], chain_model(cs.drop_first().drop_first(), v))];
        assert(chain_model(cs.drop_first(), v) == ValueModel::Directory { entries: sub });
    }
}

} // verus!
