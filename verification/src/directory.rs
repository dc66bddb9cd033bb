//! Directories: ordered mappings from path-component byte strings to
//! values.
//!
//! Keys are non-empty byte strings without `/` that are neither `.` nor
//! `..`; entries are kept strictly sorted by key in lexicographic byte
//! order, so iteration is reproducible and structural hashing is
//! deterministic. `insert` accepts a slash-separated path and creates
//! intermediate directories; `merge` is the right-biased deep merge.

use vstd::prelude::*;

use crate::hashing::{bytes_eq, clone_bytes};
use crate::value::{
    chain_model, dir_model_wf, lemma_chain_model_wf, lemma_insert_path_empty, lemma_merge_empty,
    lemma_merge_models_wf, lemma_sorted_put_insert, lemma_sorted_put_update, lemma_sorted_put_wf,
    merge_models, merge_value, model_lookup, sorted_put, spec_insert_path, value_model_wf,
    CompleteValue, ValueModel, WithMeta,
};

verus! {

broadcast use vstd::std_specs::vec::axiom_vec_index_decreases, vstd::std_specs::vec::axiom_vec_decreases_to_view;

// ---------------------------------------------------------------------------
// Byte-string order and key validity
// ---------------------------------------------------------------------------

/// Strict lexicographic order on byte strings.
pub open spec fn lex_less(a: Seq<u8>, b: Seq<u8>) -> bool
    decreases a.len(),
{
    if b.len() == 0 {
        false
    } else if a.len() == 0 {
        true
    } else if a[0] < b[0] {
        true
    } else if a[0] > b[0] {
        false
    } else {
        lex_less(a.drop_first(), b.drop_first())
    }
}

/// Nothing is lexicographically below itself.
pub proof fn lemma_lex_irrefl(a: Seq<u8>)
    ensures
        !lex_less(a, a),
    decreases a.len(),
{
    if a.len() > 0 {
        lemma_lex_irrefl(a.drop_first());
    }
}

/// Any two byte strings are ordered or equal.
pub proof fn lemma_lex_total(a: Seq<u8>, b: Seq<u8>)
    ensures
        lex_less(a, b) || lex_less(b, a) || a == b,
    decreases a.len(),
{
    if a.len() == 0 || b.len() == 0 {
        if a.len() == b.len() {
            assert(a =~= b);
        }
    } else if a[0] == b[0] {
        lemma_lex_total(a.drop_first(), b.drop_first());
        if a.drop_first() == b.drop_first() && !lex_less(a, b) && !lex_less(b, a) {
            assert(a =~= seq![a[0]] + a.drop_first());
            assert(b =~= seq![b[0]] + b.drop_first());
        }
    }
}

/// Lexicographic order is transitive.
pub proof fn lemma_lex_trans(a: Seq<u8>, b: Seq<u8>, c: Seq<u8>)
    requires
        lex_less(a, b),
        lex_less(b, c),
    ensures
        lex_less(a, c),
    decreases a.len(),
{
    if a.len() > 0 && b.len() > 0 && c.len() > 0 && a[0] == b[0] && b[0] == c[0] {
        lemma_lex_trans(a.drop_first(), b.drop_first(), c.drop_first());
    }
}

/// Compare two byte strings lexicographically.
pub fn bytes_lt(a: &[u8], b: &[u8]) -> (r: bool)
    ensures
        r == lex_less(a@, b@),
{
    let n = if a.len() < b.len() {
        a.len()
    } else {
        b.len()
    };
    let mut i: usize = 0;
    proof {
        assert(a@.skip(0) =~= a@);
        assert(b@.skip(0) =~= b@);
    }
    while i < n
        invariant
            0 <= i <= n,
            n == vstd::math::min(a@.len() as int, b@.len() as int),
            lex_less(a@, b@) == lex_less(a@.skip(i as int), b@.skip(i as int)),
        decreases n - i,
    {
        proof {
            assert(a@.skip(i as int)[0] == a@[i as int]);
            assert(b@.skip(i as int)[0] == b@[i as int]);
            assert(a@.skip(i as int).drop_first() =~= a@.skip(i + 1));
            assert(b@.skip(i as int).drop_first() =~= b@.skip(i + 1));
        }
        if a[i] < b[i] {
            return true;
        }
        if a[i] > b[i] {
            return false;
        }
        i = i + 1;
    }
    proof {
        assert(a@.skip(i as int).len() == a@.len() - i);
        assert(b@.skip(i as int).len() == b@.len() - i);
    }
    a.len() < b.len()
}

// ---------------------------------------------------------------------------
// Splitting slash-separated paths
// ---------------------------------------------------------------------------

/// The index of the first `/` in a path, if any.
pub open spec fn first_slash(p: Seq<u8>) -> Option<int>
    decreases p.len(),
{
    if p.len() == 0 {
        None
    } else if p[0] == 47u8 {
        Some(0)
    } else {
        match first_slash(p.drop_first()) {
            Some(i) => Some(i + 1),
            None => None,
        }
    }
}

/// `first_slash` finds the first `/` exactly.
pub proof fn lemma_first_slash(p: Seq<u8>)
    ensures
        match first_slash(p) {
            Some(i) => 0 <= i < p.len() && p[i] == 47u8 && forall|j: int|
                0 <= j < i ==> p[j] != 47u8,
            None => forall|j: int| 0 <= j < p.len() ==> p[j] != 47u8,
        },
    decreases p.len(),
{
    if p.len() > 0 && p[0] != 47u8 {
        lemma_first_slash(p.drop_first());
        match first_slash(p.drop_first()) {
            Some(i) => {
                assert forall|j: int| 0 <= j < i + 1 implies p[j] != 47u8 by {
                    if j > 0 {
                        assert(p.drop_first()[j - 1] == p[j]);
                    }
                }
            },
            None => {
                assert forall|j: int| 0 <= j < p.len() implies p[j] != 47u8 by {
                    if j > 0 {
                        assert(p.drop_first()[j - 1] == p[j]);
                    }
                }
            },
        }
    }
}

/// The components of a slash-separated path, splitting on every `/`; an
/// empty path and separators at the ends yield empty components.
pub open spec fn split_path(p: Seq<u8>) -> Seq<Seq<u8>>
    decreases p.len(),
    via split_path_decreases
{
    match first_slash(p) {
        None => seq![p],
        Some(i) => seq![p.take(i)] + split_path(p.skip(i + 1)),
    }
}

#[via_fn]
proof fn split_path_decreases(p: Seq<u8>) {
    lemma_first_slash(p);
}

/// A path has at least one component.
pub proof fn lemma_split_nonempty(p: Seq<u8>)
    ensures
        split_path(p).len() > 0,
{
    lemma_first_slash(p);
}

/// A run of components with the first extended at the front.
pub open spec fn extend_first(c: Seq<u8>, segs: Seq<Seq<u8>>) -> Seq<Seq<u8>>
    recommends
        segs.len() > 0,
{
    seq![c + segs[0]] + segs.drop_first()
}

/// How splitting relates to peeling the first byte.
pub proof fn lemma_split_step(p: Seq<u8>)
    requires
        p.len() > 0,
    ensures
        p[0] == 47u8 ==> split_path(p) == seq![Seq::<u8>::empty()] + split_path(p.drop_first()),
        p[0] != 47u8 ==> split_path(p) == extend_first(seq![p[0]], split_path(p.drop_first())),
{
    lemma_first_slash(p);
    lemma_first_slash(p.drop_first());
    lemma_split_nonempty(p.drop_first());
    if p[0] == 47u8 {
        assert(p.take(0) =~= Seq::<u8>::empty());
        assert(p.skip(1) =~= p.drop_first());
    } else {
        match first_slash(p.drop_first()) {
            Some(i) => {
                assert(first_slash(p) == Some(i + 1));
                assert(p.take(i + 1) =~= seq![p[0]] + p.drop_first().take(i));
                assert(p.skip(i + 2) =~= p.drop_first().skip(i + 1));
                assert(split_path(p) == seq![p.take(i + 1)] + split_path(p.skip(i + 2)));
                assert(split_path(p.drop_first()) == seq![p.drop_first().take(i)] + split_path(
                    p.drop_first().skip(i + 1),
                ));
                assert(split_path(p) =~= extend_first(seq![p[0]], split_path(p.drop_first())));
            },
            None => {
                assert(first_slash(p) is None);
                assert(p =~= seq![p[0]] + p.drop_first());
                assert(split_path(p) =~= extend_first(seq![p[0]], split_path(p.drop_first())));
            },
        }
    }
}

/// The views of a run of component buffers.
pub open spec fn component_views(s: Seq<Vec<u8>>) -> Seq<Seq<u8>> {
    s.map_values(|c: Vec<u8>| c@)
}

/// Split a path into its components.
pub fn split_path_exec(p: &[u8]) -> (r: Vec<Vec<u8>>)
    ensures
        component_views(r@) == split_path(p@),
{
    let mut acc: Vec<Vec<u8>> = Vec::new();
    let mut comp: Vec<u8> = Vec::new();
    let mut j: usize = 0;
    proof {
        assert(p@.skip(0) =~= p@);
        lemma_split_nonempty(p@);
        assert(component_views(acc@) =~= Seq::<Seq<u8>>::empty());
        assert(extend_first(comp@, split_path(p@.skip(0)))[0] =~= split_path(p@)[0]);
        assert(component_views(acc@) + extend_first(comp@, split_path(p@.skip(0))) =~= split_path(
            p@,
        ));
    }
    while j < p.len()
        invariant
            0 <= j <= p@.len(),
            split_path(p@.skip(j as int)).len() > 0,
            component_views(acc@) + extend_first(comp@, split_path(p@.skip(j as int)))
                == split_path(p@),
        decreases p@.len() - j,
    {
        let ghost s = p@.skip(j as int);
        proof {
            assert(s[0] == p@[j as int]);
            assert(s.drop_first() =~= p@.skip(j + 1));
            lemma_split_step(s);
            lemma_split_nonempty(p@.skip(j + 1));
        }
        if p[j] == 47 {
            let done = comp;
            comp = Vec::new();
            let ghost acc0 = acc@;
            acc.push(done);
            proof {
                let x = split_path(p@.skip(j + 1));
                assert(split_path(s) == seq![Seq::<u8>::empty()] + x);
                assert(extend_first(done@, split_path(s))[0] == done@ + Seq::<u8>::empty());
                assert(done@ + Seq::<u8>::empty() =~= done@);
                assert(extend_first(done@, split_path(s)) =~= seq![done@] + x);
                assert(extend_first(comp@, x)[0] =~= x[0]);
                assert(extend_first(comp@, x) =~= x);
                assert(component_views(acc@) =~= component_views(acc0).push(done@));
                assert(component_views(acc@) + extend_first(comp@, x) =~= component_views(acc0)
                    + (seq![done@] + x));
                assert(component_views(acc0) + (seq![done@] + x) =~= component_views(acc0)
                    + extend_first(done@, split_path(s)));
            }
        } else {
            let b = p[j];
            let ghost comp0 = comp@;
            comp.push(b);
            proof {
                assert(split_path(s) == extend_first(seq![b], split_path(p@.skip(j + 1))));
                let x = split_path(p@.skip(j + 1));
                assert(extend_first(comp@, x)[0] == comp@ + x[0]);
                assert(comp@ + x[0] =~= comp0 + (seq![b] + x[0])) by {
                    assert(comp@ =~= comp0.push(b));
                };
                assert(extend_first(comp0, split_path(s)) =~= extend_first(comp@, x));
            }
        }
        j = j + 1;
    }
    proof {
        assert(p@.skip(j as int) =~= Seq::<u8>::empty());
        assert(first_slash(Seq::<u8>::empty()) is None);
        assert(split_path(p@.skip(j as int)) == seq![Seq::<u8>::empty()]);
    }
    let ghost comp1 = comp@;
    acc.push(comp);
    proof {
        assert(extend_first(comp1, seq![Seq::<u8>::empty()])[0] =~= comp1);
        assert(extend_first(comp1, seq![Seq::<u8>::empty()]) =~= seq![comp1]);
        assert(component_views(acc@) =~= component_views(acc@.drop_last()).push(acc@.last()@));
        assert(component_views(acc@) =~= split_path(p@));
    }
    acc
}

/// A valid directory key: a non-empty path component that is neither `.`
/// nor `..` and holds no `/`.
pub open spec fn valid_key(k: Seq<u8>) -> bool {
    &&& k.len() > 0
    &&& k != seq![46u8]
    &&& k != seq![46u8, 46u8]
    &&& forall|i: int| 0 <= i < k.len() ==> k[i] != 47u8
}

/// Check a directory key.
pub fn is_valid_key(k: &[u8]) -> (r: bool)
    ensures
        r == valid_key(k@),
{
    if k.len() == 0 {
        return false;
    }
    if k.len() == 1 && k[0] == 46 {
        proof {
            assert(k@ =~= seq![46u8]);
        }
        return false;
    }
    if k.len() == 2 && k[0] == 46 && k[1] == 46 {
        proof {
            assert(k@ =~= seq![46u8, 46u8]);
        }
        return false;
    }
    let mut i: usize = 0;
    while i < k.len()
        invariant
            0 <= i <= k@.len(),
            forall|j: int| 0 <= j < i ==> k@[j] != 47u8,
        decreases k@.len() - i,
    {
        if k[i] == 47 {
            return false;
        }
        i = i + 1;
    }
    proof {
        if k@ == seq![46u8] {
            assert(k@.len() == 1);
        }
        if k@ == seq![46u8, 46u8] {
            assert(k@.len() == 2);
        }
    }
    true
}

// ---------------------------------------------------------------------------
// The directory type and its model
// ---------------------------------------------------------------------------

/// One directory entry: a component name and the value under it.
#[derive(Debug)]
pub struct DirEntry {
    pub name: Vec<u8>,
    pub node: WithMeta<CompleteValue>,
}

/// An ordered mapping from path-component byte strings to values.
#[derive(Debug)]
pub struct Directory {
    entries: Vec<DirEntry>,
}

/// The model of a run of entries: its `(name, child model)` pairs in order.
pub open spec fn entries_model(s: Seq<DirEntry>) -> Seq<(Seq<u8>, ValueModel)>
    decreases s,
{
    if s.len() == 0 {
        Seq::empty()
    } else {
        entries_model(s.drop_last()).push((s.last().name@, s.last().node.value.model()))
    }
}

/// The model of a run of entries is its pointwise image.
pub proof fn lemma_entries_model_shape(s: Seq<DirEntry>)
    ensures
        entries_model(s).len() == s.len(),
        forall|i: int|
            0 <= i < s.len() ==> (#[trigger] entries_model(s)[i]) == (
                s[i].name@,
                s[i].node.value.model(),
            ),
    decreases s,
{
    if s.len() > 0 {
        lemma_entries_model_shape(s.drop_last());
        assert forall|i: int| 0 <= i < s.len() implies (#[trigger] entries_model(s)[i]) == (
            s[i].name@,
            s[i].node.value.model(),
        ) by {
            if i < s.len() - 1 {
                assert(s.drop_last()[i] == s[i]);
                assert(entries_model(s)[i] == entries_model(s.drop_last())[i]);
            }
        }
    }
}

/// The first-match lookup finds the slot that bears the name.
pub proof fn lemma_lookup_at(m: Seq<(Seq<u8>, ValueModel)>, pos: int)
    requires
        0 <= pos < m.len(),
        forall|i: int, j: int|
            0 <= i < j < m.len() ==> lex_less((#[trigger] m[i]).0, (#[trigger] m[j]).0),
    ensures
        model_lookup(m, m[pos].0) == Some(m[pos].1),
    decreases m.len(),
{
    if pos == 0 {
    } else {
        lemma_lex_irrefl(m[0].0);
        assert(lex_less(m[0].0, m[pos].0));
        lemma_lookup_at(m.drop_first(), pos - 1);
    }
}

/// A name no slot bears is not found.
pub proof fn lemma_lookup_absent(m: Seq<(Seq<u8>, ValueModel)>, k: Seq<u8>)
    requires
        forall|i: int| 0 <= i < m.len() ==> (#[trigger] m[i]).0 != k,
    ensures
        model_lookup(m, k) is None,
    decreases m.len(),
{
    if m.len() > 0 {
        lemma_lookup_absent(m.drop_first(), k);
    }
}

impl Directory {
    /// The sequence of `(name, child model)` pairs this directory denotes,
    /// in iteration order.
    pub closed spec fn model(self) -> Seq<(Seq<u8>, ValueModel)>
        decreases self,
    {
        entries_model(self.entries@)
    }

    /// Well formed: strictly sorted valid keys over well-formed values.
    pub open spec fn wf(self) -> bool {
        dir_model_wf(self.model())
    }

    /// The empty directory.
    pub fn empty() -> (r: Directory)
        ensures
            r.wf(),
            r.model() == Seq::<(Seq<u8>, ValueModel)>::empty(),
    {
        Directory { entries: Vec::new() }
    }

    /// How many entries the directory has.
    pub fn entry_count(&self) -> (r: usize)
        ensures
            r == self.model().len(),
    {
        proof {
            lemma_entries_model_shape(self.entries@);
        }
        self.entries.len()
    }

    /// The entry at an iteration position.
    pub fn entry_at(&self, i: usize) -> (r: &DirEntry)
        requires
            i < self.model().len(),
        ensures
            r.name@ == self.model()[i as int].0,
            r.node.value.model() == self.model()[i as int].1,
            self.wf() ==> r.node.value.wf() && valid_key(r.name@),
    {
        proof {
            lemma_entries_model_shape(self.entries@);
            crate::value::lemma_value_wf_model(self.entries@[i as int].node.value);
        }
        &self.entries[i]
    }

    /// Directory ordering: iteration yields keys in strictly increasing
    /// lexicographic byte order.
    pub proof fn lemma_iteration_sorted(self)
        requires
            self.wf(),
        ensures
            forall|i: int, j: int|
                0 <= i < j < self.model().len() ==> lex_less(
                    (#[trigger] self.model()[i]).0,
                    (#[trigger] self.model()[j]).0,
                ),
    {
    }

    /// Copy the directory; the copy has the same model.
    pub fn duplicate(&self) -> (r: Directory)
        ensures
            r.model() == self.model(),
        decreases self,
    {
        let mut out: Vec<DirEntry> = Vec::new();
        let mut i: usize = 0;
        while i < self.entries.len()
            invariant
                0 <= i <= self.entries@.len(),
                out@.len() == i,
                forall|j: int|
                    0 <= j < i ==> (#[trigger] out@[j]).name@ == self.entries@[j].name@
                        && out@[j].node.value.model() == self.entries@[j].node.value.model(),
                decreases_to!(self => self.entries@),
            decreases self.entries@.len() - i,
        {
            let entry = &self.entries[i];
            proof {
                assert(decreases_to!(self.entries@ => entry.node));
            }
            out.push(
                DirEntry {
                    name: clone_bytes(&entry.name),
                    node: crate::value::clone_node(&entry.node),
                },
            );
            i = i + 1;
        }
        proof {
            lemma_entries_model_shape(out@);
            lemma_entries_model_shape(self.entries@);
            assert(entries_model(out@) =~= entries_model(self.entries@));
        }
        Directory { entries: out }
    }

    /// Look one component up.
    pub fn get(&self, name: &[u8]) -> (r: Option<&WithMeta<CompleteValue>>)
        requires
            self.wf(),
        ensures
            r is Some <==> model_lookup(self.model(), name@) is Some,
            r matches Some(node) ==> model_lookup(self.model(), name@) == Some(
                node.value.model(),
            ) && node.value.wf(),
    {
        let mut i: usize = 0;
        proof {
            lemma_entries_model_shape(self.entries@);
        }
        while i < self.entries.len()
            invariant
                self.wf(),
                0 <= i <= self.entries@.len(),
                entries_model(self.entries@).len() == self.entries@.len(),
                forall|j: int|
                    0 <= j < self.entries@.len() ==> (#[trigger] entries_model(self.entries@)[j])
                        == (self.entries@[j].name@, self.entries@[j].node.value.model()),
                forall|j: int| 0 <= j < i ==> (#[trigger] self.entries@[j].name@) != name@,
            decreases self.entries@.len() - i,
        {
            if bytes_eq(self.entries[i].name.as_slice(), name) {
                proof {
                    lemma_lookup_at(self.model(), i as int);
                }
                return Some(&self.entries[i].node);
            }
            i = i + 1;
        }
        proof {
            assert forall|j: int| 0 <= j < self.model().len() implies (#[trigger] self.model()[
            j]).0 != name@ by {
                assert(self.entries@[j].name@ != name@);
            }
            lemma_lookup_absent(self.model(), name@);
        }
        None
    }

    /// Bind one component to a value: replace the slot that bears the name,
    /// or insert a new slot at its ordered position.
    pub fn set_entry(&mut self, name: Vec<u8>, node: WithMeta<CompleteValue>)
        requires
            old(self).wf(),
            valid_key(name@),
            node.value.wf(),
        ensures
            final(self).wf(),
            final(self).model() == sorted_put(old(self).model(), name@, node.value.model()),
    {
        proof {
            lemma_entries_model_shape(self.entries@);
        }
        let ghost m0 = self.model();
        let mut pos: usize = 0;
        let mut stop = false;
        while pos < self.entries.len() && !stop
            invariant
                old(self) == self,
                self.wf(),
                entries_model(self.entries@).len() == self.entries@.len(),
                forall|j: int|
                    0 <= j < self.entries@.len() ==> (#[trigger] entries_model(self.entries@)[j])
                        == (self.entries@[j].name@, self.entries@[j].node.value.model()),
                0 <= pos <= self.entries@.len(),
                forall|j: int| 0 <= j < pos ==> lex_less((#[trigger] self.entries@[j].name@), name@),
                stop ==> pos < self.entries@.len() && !lex_less(self.entries@[pos as int].name@, name@),
            decreases self.entries@.len() - pos, if stop { 0int } else { 1int },
        {
            if bytes_lt(self.entries[pos].name.as_slice(), name.as_slice()) {
                pos = pos + 1;
            } else {
                stop = true;
            }
        }
        let ghost p = pos as int;
        if pos < self.entries.len() && bytes_eq(self.entries[pos].name.as_slice(), name.as_slice())
        {
            let ent = self.entries.remove(pos);
            self.entries.insert(pos, DirEntry { name, node });
            proof {
                assert(self.entries@ =~= old(self).entries@.update(p, self.entries@[p]));
                lemma_entries_model_shape(self.entries@);
                lemma_entries_model_shape(old(self).entries@);
                assert(self.model() =~= m0.update(p, (name@, node.value.model())));
                lemma_sorted_put_update(m0, name@, node.value.model(), p);
                lemma_sorted_put_wf(m0, name@, node.value.model());
            }
        } else {
            proof {
                if p < old(self).entries@.len() {
                    lemma_lex_total(old(self).entries@[p].name@, name@);
                }
                assert forall|j: int| p <= j < m0.len() implies lex_less(
                    name@,
                    (#[trigger] m0[j]).0,
                ) by {
                    if j > p {
                        assert(lex_less(m0[p].0, m0[j].0));
                        lemma_lex_trans(name@, m0[p].0, m0[j].0);
                    }
                }
            }
            self.entries.insert(pos, DirEntry { name, node });
            proof {
                lemma_entries_model_shape(self.entries@);
                lemma_entries_model_shape(old(self).entries@);
                assert(self.model() =~= m0.insert(p, (name@, node.value.model())));
                lemma_sorted_put_insert(m0, name@, node.value.model(), p);
                lemma_sorted_put_wf(m0, name@, node.value.model());
            }
        }
    }
}

/// An error of a directory operation.
#[derive(Debug)]
pub enum DirectoryError {
    /// A path component is empty, `.`, or `..`.
    InvalidPath,
    /// A non-directory occupies an intermediate component of the path.
    PathConflict,
}

/// Every component a valid key, and at least one component.
pub open spec fn components_all_valid(cs: Seq<Seq<u8>>) -> bool {
    cs.len() > 0 && (forall|i: int| 0 <= i < cs.len() ==> valid_key(#[trigger] cs[i]))
}

/// Dropping the first slot keeps a model well formed.
pub proof fn lemma_dir_model_wf_drop(m: Seq<(Seq<u8>, ValueModel)>)
    requires
        dir_model_wf(m),
        m.len() > 0,
    ensures
        dir_model_wf(m.drop_first()),
{
    assert forall|i: int, j: int| 0 <= i < j < m.drop_first().len() implies lex_less(
        (#[trigger] m.drop_first()[i]).0,
        (#[trigger] m.drop_first()[j]).0,
    ) by {
        assert(m.drop_first()[i] == m[i + 1]);
        assert(m.drop_first()[j] == m[j + 1]);
    }
    assert forall|i: int| 0 <= i < m.drop_first().len() implies valid_key(
        (#[trigger] m.drop_first()[i]).0,
    ) && value_model_wf(m.drop_first()[i].1) by {
        assert(m.drop_first()[i] == m[i + 1]);
    }
}

/// The model of entries without their first.
pub proof fn lemma_model_drop_first(s: Seq<DirEntry>)
    requires
        s.len() > 0,
    ensures
        entries_model(s.drop_first()) == entries_model(s).drop_first(),
{
    lemma_entries_model_shape(s);
    lemma_entries_model_shape(s.drop_first());
    assert forall|i: int| 0 <= i < s.drop_first().len() implies entries_model(s.drop_first())[i]
        == entries_model(s).drop_first()[i] by {
        assert(s.drop_first()[i] == s[i + 1]);
    }
    assert(entries_model(s.drop_first()) =~= entries_model(s).drop_first());
}

/// The model of entries with one placed at the front.
pub proof fn lemma_model_insert_front(s: Seq<DirEntry>, e: DirEntry)
    ensures
        entries_model(s.insert(0, e)) == seq![(e.name@, e.node.value.model())] + entries_model(s),
{
    lemma_entries_model_shape(s);
    lemma_entries_model_shape(s.insert(0, e));
    assert forall|i: int| 0 <= i < s.len() + 1 implies entries_model(s.insert(0, e))[i] == (
    seq![(e.name@, e.node.value.model())] + entries_model(s))[i] by {
        if i > 0 {
            assert(s.insert(0, e)[i] == s[i - 1]);
        }
    }
    assert(entries_model(s.insert(0, e)) =~= seq![(e.name@, e.node.value.model())]
        + entries_model(s));
}

/// The nested single-entry directories that hold `node` under the chain of
/// components `comps[idx..]`.
fn build_chain(comps: &Vec<Vec<u8>>, idx: usize, node: WithMeta<CompleteValue>) -> (r: WithMeta<
    CompleteValue,
>)
    requires
        idx <= comps@.len(),
        forall|i: int| 0 <= i < comps@.len() ==> valid_key((#[trigger] comps@[i])@),
        node.value.wf(),
    ensures
        r.value.model() == chain_model(
            component_views(comps@).skip(idx as int),
            node.value.model(),
        ),
        r.value.wf(),
    decreases comps@.len() - idx,
{
    let ghost cs = component_views(comps@).skip(idx as int);
    if idx == comps.len() {
        proof {
            assert(cs =~= Seq::<Seq<u8>>::empty());
        }
        node
    } else {
        let inner = build_chain(comps, idx + 1, node);
        let mut dir = Directory::empty();
        dir.set_entry(clone_bytes(&comps[idx]), inner);
        proof {
            assert(cs[0] == comps@[idx as int]@);
            assert(cs.drop_first() =~= component_views(comps@).skip(idx + 1));
            assert(dir.model() == sorted_put(
                Seq::<(Seq<u8>, ValueModel)>::empty(),
                comps@[idx as int]@,
                inner.value.model(),
            ));
            assert(dir.model() =~= seq![(cs[0], chain_model(cs.drop_first(), node.value.model()))]);
        }
        WithMeta::new(CompleteValue::Directory(dir))
    }
}

/// Insert `node` under `comps[idx..]` of `d`, creating intermediate
/// directories; fails without change when a non-directory is in the way.
fn insert_components(
    d: &mut Directory,
    comps: &Vec<Vec<u8>>,
    idx: usize,
    node: WithMeta<CompleteValue>,
) -> (r: Result<(), DirectoryError>)
    requires
        old(d).wf(),
        idx < comps@.len(),
        forall|i: int| 0 <= i < comps@.len() ==> valid_key((#[trigger] comps@[i])@),
        node.value.wf(),
    ensures
        final(d).wf(),
        match spec_insert_path(
            old(d).model(),
            component_views(comps@).skip(idx as int),
            node.value.model(),
        ) {
            Some(m2) => r is Ok && final(d).model() == m2,
            None => (r matches Err(e) && e is PathConflict) && final(d).model() == old(d).model(),
        },
    decreases comps@.len() - idx,
{
    let ghost cs = component_views(comps@).skip(idx as int);
    let ghost m0 = d.model();
    proof {
        assert(cs[0] == comps@[idx as int]@);
        assert(cs.drop_first() =~= component_views(comps@).skip(idx + 1));
    }
    if idx == comps.len() - 1 {
        proof {
            assert(cs.len() == 1);
        }
        d.set_entry(clone_bytes(&comps[idx]), node);
        return Ok(());
    }
    proof {
        lemma_entries_model_shape(d.entries@);
    }
    let name = &comps[idx];
    let mut pos: usize = 0;
    let mut stop = false;
    while pos < d.entries.len() && !stop
        invariant
            d == old(d),
            d.wf(),
            entries_model(d.entries@).len() == d.entries@.len(),
            forall|j: int|
                0 <= j < d.entries@.len() ==> (#[trigger] entries_model(d.entries@)[j]) == (
                    d.entries@[j].name@,
                    d.entries@[j].node.value.model(),
                ),
            0 <= pos <= d.entries@.len(),
            name == comps@[idx as int],
            forall|j: int| 0 <= j < pos ==> lex_less((#[trigger] d.entries@[j].name@), name@),
            stop ==> pos < d.entries@.len() && !lex_less(d.entries@[pos as int].name@, name@),
        decreases d.entries@.len() - pos, if stop {
            0int
        } else {
            1int
        },
    {
        if bytes_lt(d.entries[pos].name.as_slice(), name.as_slice()) {
            pos = pos + 1;
        } else {
            stop = true;
        }
    }
    let ghost p = pos as int;
    if pos < d.entries.len() && bytes_eq(d.entries[pos].name.as_slice(), name.as_slice()) {
        proof {
            lemma_lookup_at(m0, p);
        }
        let ent = d.entries.remove(pos);
        let DirEntry { name: ename, node: enode } = ent;
        let WithMeta { value: evalue, meta: emeta } = enode;
        match evalue {
            CompleteValue::Directory(mut sub) => {
                let ghost sub0 = sub.model();
                proof {
                    assert(m0[p].1 == ValueModel::Directory { entries: sub0 });
                    assert(value_model_wf(m0[p].1));
                }
                let res = insert_components(&mut sub, comps, idx + 1, node);
                let ghost sub1 = sub.model();
                d.entries.insert(
                    pos,
                    DirEntry {
                        name: ename,
                        node: WithMeta { value: CompleteValue::Directory(sub), meta: emeta },
                    },
                );
                proof {
                    assert(d.entries@ =~= old(d).entries@.update(p, d.entries@[p]));
                    lemma_entries_model_shape(d.entries@);
                    assert(d.model() =~= m0.update(
                        p,
                        (name@, ValueModel::Directory { entries: sub1 }),
                    ));
                    match res {
                        Ok(_) => {
                            lemma_sorted_put_update(
                                m0,
                                name@,
                                ValueModel::Directory { entries: sub1 },
                                p,
                            );
                            lemma_sorted_put_wf(
                                m0,
                                name@,
                                ValueModel::Directory { entries: sub1 },
                            );
                        },
                        Err(_) => {
                            assert(sub1 == sub0);
                            assert(d.model() =~= m0);
                        },
                    }
                }
                res
            },
            other => {
                d.entries.insert(
                    pos,
                    DirEntry { name: ename, node: WithMeta { value: other, meta: emeta } },
                );
                proof {
                    assert(d.entries@ =~= old(d).entries@);
                    assert(d.model() == m0);
                    assert(!(m0[p].1 is Directory));
                }
                Err(DirectoryError::PathConflict)
            },
        }
    } else {
        proof {
            if p < old(d).entries@.len() {
                lemma_lex_total(old(d).entries@[p].name@, name@);
            }
            assert forall|j: int| 0 <= j < m0.len() implies (#[trigger] m0[j]).0 != name@ by {
                lemma_lex_irrefl(name@);
                if j < p {
                } else {
                    if j > p {
                        assert(lex_less(m0[p].0, m0[j].0));
                        lemma_lex_trans(name@, m0[p].0, m0[j].0);
                    }
                }
            }
            lemma_lookup_absent(m0, name@);
            assert forall|j: int| p <= j < m0.len() implies lex_less(
                name@,
                (#[trigger] m0[j]).0,
            ) by {
                if j > p {
                    assert(lex_less(m0[p].0, m0[j].0));
                    lemma_lex_trans(name@, m0[p].0, m0[j].0);
                }
            }
        }
        let chain = build_chain(comps, idx + 1, node);
        let ghost cv = chain.value.model();
        d.entries.insert(pos, DirEntry { name: clone_bytes(&comps[idx]), node: chain });
        proof {
            lemma_entries_model_shape(d.entries@);
            assert(d.model() =~= m0.insert(p, (name@, cv)));
            lemma_insert_path_empty(cs.drop_first(), node.value.model());
            assert(cv == chain_model(cs.drop_first(), node.value.model()));
            assert(cv == ValueModel::Directory {
                entries: seq![
                    (
                        cs.drop_first()[0],
                        chain_model(cs.drop_first().drop_first(), node.value.model()),
                    ),
                ],
            });
            lemma_sorted_put_insert(m0, name@, cv, p);
            crate::value::lemma_chain_model_wf(cs.drop_first(), node.value.model());
            lemma_sorted_put_wf(m0, name@, cv);
        }
        Ok(())
    }
}

/// The outcome of looking a path up in a directory model.
pub ghost enum PathLookup {
    /// The path leads to this value.
    Found(ValueModel),
    /// Some segment is absent.
    Missing,
    /// A non-terminal segment is occupied by a non-directory.
    Conflict,
}

/// Look a path of components up: the dual of inserting along it.
pub open spec fn spec_get_path(m: Seq<(Seq<u8>, ValueModel)>, cs: Seq<Seq<u8>>) -> PathLookup
    decreases cs.len(),
{
    if cs.len() <= 0 {
        PathLookup::Missing
    } else {
        match model_lookup(m, cs[0]) {
            None => PathLookup::Missing,
            Some(v) => if cs.len() == 1 {
                PathLookup::Found(v)
            } else {
                match v {
                    ValueModel::Directory { entries } => spec_get_path(entries, cs.drop_first()),
                    _ => PathLookup::Conflict,
                }
            },
        }
    }
}

/// Look `comps[idx..]` up under `d`.
fn get_components<'a>(d: &'a Directory, comps: &Vec<Vec<u8>>, idx: usize) -> (r: Result<
    Option<&'a WithMeta<CompleteValue>>,
    DirectoryError,
>)
    requires
        d.wf(),
        idx < comps@.len(),
    ensures
        match spec_get_path(d.model(), component_views(comps@).skip(idx as int)) {
            PathLookup::Found(v) => r matches Ok(o) && (o matches Some(node) && node.value.model()
                == v && node.value.wf()),
            PathLookup::Missing => r matches Ok(o) && o is None,
            PathLookup::Conflict => r matches Err(e) && e is PathConflict,
        },
    decreases comps@.len() - idx,
{
    let ghost cs = component_views(comps@).skip(idx as int);
    proof {
        assert(cs[0] == comps@[idx as int]@);
        assert(cs.drop_first() =~= component_views(comps@).skip(idx + 1));
    }
    match d.get(comps[idx].as_slice()) {
        None => Ok(None),
        Some(node) => {
            if idx == comps.len() - 1 {
                proof {
                    assert(cs.len() == 1);
                }
                Ok(Some(node))
            } else {
                match &node.value {
                    CompleteValue::Directory(sub) => get_components(sub, comps, idx + 1),
                    _ => Err(DirectoryError::PathConflict),
                }
            }
        },
    }
}

impl Directory {
    /// Look a path up by its components.
    pub fn get_at(&self, comps: &Vec<Vec<u8>>) -> (r: Result<
        Option<&WithMeta<CompleteValue>>,
        DirectoryError,
    >)
        requires
            self.wf(),
            comps@.len() > 0,
        ensures
            match spec_get_path(self.model(), component_views(comps@)) {
                PathLookup::Found(v) => r matches Ok(o) && (o matches Some(node)
                    && node.value.model() == v && node.value.wf()),
                PathLookup::Missing => r matches Ok(o) && o is None,
                PathLookup::Conflict => r matches Err(e) && e is PathConflict,
            },
    {
        proof {
            assert(component_views(comps@).skip(0) =~= component_views(comps@));
        }
        get_components(self, comps, 0)
    }

    /// Insert a value at a path given by its components.
    pub fn insert_at(&mut self, comps: &Vec<Vec<u8>>, node: WithMeta<CompleteValue>) -> (r: Result<
        (),
        DirectoryError,
    >)
        requires
            old(self).wf(),
            comps@.len() > 0,
            forall|i: int| 0 <= i < comps@.len() ==> valid_key((#[trigger] comps@[i])@),
            node.value.wf(),
        ensures
            final(self).wf(),
            match spec_insert_path(old(self).model(), component_views(comps@), node.value.model()) {
                Some(m2) => r is Ok && final(self).model() == m2,
                None => (r matches Err(e) && e is PathConflict) && final(self).model() == old(
                    self,
                ).model(),
            },
    {
        proof {
            assert(component_views(comps@).skip(0) =~= component_views(comps@));
        }
        insert_components(self, comps, 0, node)
    }

    /// Look a slash-separated path up: `None` on any missing segment, an
    /// error when a component is invalid or a non-terminal segment is a
    /// non-directory.
    pub fn get_path(&self, path: &[u8]) -> (r: Result<
        Option<&WithMeta<CompleteValue>>,
        DirectoryError,
    >)
        requires
            self.wf(),
        ensures
            !components_all_valid(split_path(path@)) ==> (r matches Err(e) && e is InvalidPath),
            components_all_valid(split_path(path@)) ==> match spec_get_path(
                self.model(),
                split_path(path@),
            ) {
                PathLookup::Found(v) => r matches Ok(o) && (o matches Some(node)
                    && node.value.model() == v && node.value.wf()),
                PathLookup::Missing => r matches Ok(o) && o is None,
                PathLookup::Conflict => r matches Err(e) && e is PathConflict,
            },
    {
        let comps = split_path_exec(path);
        proof {
            lemma_split_nonempty(path@);
        }
        let mut i: usize = 0;
        while i < comps.len()
            invariant
                self.wf(),
                component_views(comps@) == split_path(path@),
                0 <= i <= comps@.len(),
                forall|j: int| 0 <= j < i ==> valid_key((#[trigger] comps@[j])@),
            decreases comps@.len() - i,
        {
            if !is_valid_key(comps[i].as_slice()) {
                proof {
                    assert(!valid_key(component_views(comps@)[i as int]));
                }
                return Err(DirectoryError::InvalidPath);
            }
            i = i + 1;
        }
        proof {
            assert forall|j: int| 0 <= j < split_path(path@).len() implies valid_key(
                #[trigger] split_path(path@)[j],
            ) by {
                assert(split_path(path@)[j] == comps@[j]@);
            }
            assert(component_views(comps@).skip(0) =~= split_path(path@));
        }
        get_components(self, &comps, 0)
    }

    /// Insert a value at a slash-separated path: intermediate directories
    /// are created where missing; the insertion fails, changing nothing,
    /// when a component is invalid or a non-directory occupies an
    /// intermediate component.
    pub fn insert(&mut self, path: &[u8], node: WithMeta<CompleteValue>) -> (r: Result<
        (),
        DirectoryError,
    >)
        requires
            old(self).wf(),
            node.value.wf(),
        ensures
            final(self).wf(),
            !components_all_valid(split_path(path@)) ==> (r matches Err(e) && e is InvalidPath)
                && final(self).model() == old(self).model(),
            components_all_valid(split_path(path@)) ==> match spec_insert_path(
                old(self).model(),
                split_path(path@),
                node.value.model(),
            ) {
                Some(m2) => r is Ok && final(self).model() == m2,
                None => (r matches Err(e) && e is PathConflict) && final(self).model() == old(
                    self,
                ).model(),
            },
    {
        let comps = split_path_exec(path);
        proof {
            lemma_split_nonempty(path@);
        }
        let mut i: usize = 0;
        while i < comps.len()
            invariant
                self == old(self),
                self.wf(),
                component_views(comps@) == split_path(path@),
                0 <= i <= comps@.len(),
                forall|j: int| 0 <= j < i ==> valid_key((#[trigger] comps@[j])@),
            decreases comps@.len() - i,
        {
            if !is_valid_key(comps[i].as_slice()) {
                proof {
                    assert(!valid_key(component_views(comps@)[i as int]));
                }
                return Err(DirectoryError::InvalidPath);
            }
            i = i + 1;
        }
        proof {
            assert forall|j: int| 0 <= j < split_path(path@).len() implies valid_key(
                #[trigger] split_path(path@)[j],
            ) by {
                assert(split_path(path@)[j] == comps@[j]@);
            }
            assert(component_views(comps@).skip(0) =~= split_path(path@));
        }
        insert_components(self, &comps, 0, node)
    }

    /// Right-biased deep merge: keys of both directories, with slots
    /// present on both sides merged recursively when both are directories
    /// and taken from `other` otherwise.
    pub fn merge(self, other: Directory) -> (r: Directory)
        requires
            self.wf(),
            other.wf(),
        ensures
            r.wf(),
            r.model() == merge_models(self.model(), other.model()),
        decreases other, 0nat,
    {
        let ghost lm = self.model();
        let ghost rm = other.model();
        proof {
            lemma_merge_models_wf(lm, rm);
        }
        let Directory { entries: le } = self;
        let Directory { entries: re } = other;
        let out = merge_entry_vecs(le, re);
        Directory { entries: out }
    }
}

/// Merge two sorted entry runs, right-biased.
fn merge_entry_vecs(l: Vec<DirEntry>, r: Vec<DirEntry>) -> (out: Vec<DirEntry>)
    requires
        dir_model_wf(entries_model(l@)),
        dir_model_wf(entries_model(r@)),
    ensures
        entries_model(out@) == merge_models(entries_model(l@), entries_model(r@)),
    decreases r@, l@.len(),
{
    let ghost l0 = l@;
    let ghost r0 = r@;
    let ghost lm0 = entries_model(l@);
    let ghost rm0 = entries_model(r@);
    proof {
        lemma_entries_model_shape(l@);
        lemma_entries_model_shape(r@);
    }
    let mut l = l;
    let mut r = r;
    if r.len() == 0 {
        proof {
            assert(rm0 =~= Seq::<(Seq<u8>, ValueModel)>::empty());
            lemma_merge_empty(lm0);
        }
        return l;
    }
    if l.len() == 0 {
        proof {
            assert(lm0 =~= Seq::<(Seq<u8>, ValueModel)>::empty());
            lemma_merge_empty(rm0);
        }
        return r;
    }
    proof {
        lemma_model_drop_first(l0);
        lemma_model_drop_first(r0);
        lemma_dir_model_wf_drop(lm0);
        lemma_dir_model_wf_drop(rm0);
    }
    if bytes_lt(l[0].name.as_slice(), r[0].name.as_slice()) {
        let e = l.remove(0);
        proof {
            assert(l@ =~= l0.drop_first());
        }
        let mut out = merge_entry_vecs(l, r);
        let ghost rest0 = out@;
        out.insert(0, e);
        proof {
            assert(out@ =~= rest0.insert(0, e));
            lemma_model_insert_front(rest0, e);
            assert((e.name@, e.node.value.model()) == lm0[0]);
            assert(entries_model(out@) =~= seq![lm0[0]] + merge_models(lm0.drop_first(), rm0));
        }
        out
    } else if bytes_lt(r[0].name.as_slice(), l[0].name.as_slice()) {
        let e = r.remove(0);
        proof {
            assert(r@ =~= r0.drop_first());
        }
        let mut out = merge_entry_vecs(l, r);
        let ghost rest0 = out@;
        out.insert(0, e);
        proof {
            assert(out@ =~= rest0.insert(0, e));
            lemma_model_insert_front(rest0, e);
            assert((e.name@, e.node.value.model()) == rm0[0]);
            assert(entries_model(out@) =~= seq![rm0[0]] + merge_models(lm0, rm0.drop_first()));
        }
        out
    } else {
        proof {
            lemma_lex_total(l0[0].name@, r0[0].name@);
            assert(l0[0].name@ == r0[0].name@);
        }
        let lh = l.remove(0);
        let rh = r.remove(0);
        let DirEntry { name: rname, node: rnode } = rh;
        let WithMeta { value: rvalue, meta: rmeta } = rnode;
        let merged_value = match (lh.node.value, rvalue) {
            (CompleteValue::Directory(dl), CompleteValue::Directory(dr)) => {
                proof {
                    assert(value_model_wf(lm0[0].1));
                    assert(value_model_wf(rm0[0].1));
                    assert(decreases_to!(r0 => r0[0]));
                    assert(decreases_to!(r0[0] => dr));
                }
                CompleteValue::Directory(dl.merge(dr))
            },
            (_, rv) => rv,
        };
        proof {
            assert(merged_value.model() == merge_value(lm0[0].1, rm0[0].1));
        }
        let e = DirEntry { name: rname, node: WithMeta { value: merged_value, meta: rmeta } };
        proof {
            assert(l@ =~= l0.drop_first());
            assert(r@ =~= r0.drop_first());
        }
        let mut out = merge_entry_vecs(l, r);
        let ghost rest0 = out@;
        out.insert(0, e);
        proof {
            assert(out@ =~= rest0.insert(0, e));
            lemma_model_insert_front(rest0, e);
            assert((e.name@, e.node.value.model()) == (
                rm0[0].0,
                merge_value(lm0[0].1, rm0[0].1),
            ));
            assert(entries_model(out@) =~= seq![(rm0[0].0, merge_value(lm0[0].1, rm0[0].1))]
                + merge_models(lm0.drop_first(), rm0.drop_first()));
        }
        out
    }
}

// ---------------------------------------------------------------------------
// Canonical encoding
// ---------------------------------------------------------------------------

/// Append bytes.
pub fn push_bytes(out: &mut Vec<u8>, b: &[u8])
    ensures
        final(out)@ == old(out)@ + b@,
{
    let mut j: usize = 0;
    while j < b.len()
        invariant
            0 <= j <= b@.len(),
            out@ == old(out)@ + b@.take(j as int),
        decreases b@.len() - j,
    {
        out.push(b[j]);
        proof {
            assert(old(out)@ + b@.take(j + 1) =~= (old(out)@ + b@.take(j as int)).push(
                b@[j as int],
            ));
        }
        j = j + 1;
    }
    proof {
        assert(b@.take(b@.len() as int) =~= b@);
    }
}

/// Append a length as eight little-endian bytes.
pub fn push_len(out: &mut Vec<u8>, n: u64)
    ensures
        final(out)@ == old(out)@ + crate::value::len_bytes(n),
{
    let mut k: usize = 0;
    while k < 8
        invariant
            0 <= k <= 8,
            out@ == old(out)@ + crate::value::len_bytes(n).take(k as int),
        decreases 8 - k,
    {
        let byte_val = (n >> ((8 * k) as u64)) & 0xff;
        proof {
            assert((n >> ((8 * k) as u64)) & 0xff <= 255) by (bit_vector);
        }
        out.push(byte_val as u8);
        proof {
            assert(crate::value::len_bytes(n)[k as int] == byte_val as u8);
            assert(old(out)@ + crate::value::len_bytes(n).take(k + 1) =~= (old(out)@
                + crate::value::len_bytes(n).take(k as int)).push(
                crate::value::len_bytes(n)[k as int],
            ));
        }
        k = k + 1;
    }
    proof {
        assert(crate::value::len_bytes(n).take(8) =~= crate::value::len_bytes(n));
    }
}

/// Append the canonical form of a file value.
pub fn encode_file_into(f: &crate::value::FileValue, out: &mut Vec<u8>)
    ensures
        final(out)@ == old(out)@ + crate::value::encode_model(f.model()),
    decreases *f, 0nat,
{
    out.push(0u8);
    let content = f.content.as_bytes();
    push_len(out, content.len() as u64);
    push_bytes(out, content);
    out.push(if f.executable { 1u8 } else { 0u8 });
    encode_dir_body_into(&f.resources, out);
    proof {
        assert(out@ =~= old(out)@ + crate::value::encode_model(f.model()));
    }
}

/// Append the canonical form of a complete value.
pub fn encode_value_into(v: &CompleteValue, out: &mut Vec<u8>)
    ensures
        final(out)@ == old(out)@ + crate::value::encode_model(v.model()),
    decreases *v, 0nat,
{
    match v {
        CompleteValue::File(f) => {
            encode_file_into(f, out);
        },
        CompleteValue::Directory(d) => {
            encode_directory_into(d, out);
        },
        CompleteValue::Symlink { target } => {
            out.push(2u8);
            push_len(out, target.len() as u64);
            push_bytes(out, target.as_slice());
            proof {
                assert(out@ =~= old(out)@ + crate::value::encode_model(v.model()));
            }
        },
    }
}

/// Append the canonical form of a directory.
pub fn encode_directory_into(d: &Directory, out: &mut Vec<u8>)
    ensures
        final(out)@ == old(out)@ + crate::value::encode_model(
            ValueModel::Directory { entries: d.model() },
        ),
    decreases *d, 1nat,
{
    out.push(1u8);
    encode_dir_body_into(d, out);
    proof {
        assert(out@ =~= old(out)@ + crate::value::encode_model(
            ValueModel::Directory { entries: d.model() },
        ));
    }
}

/// Append a directory model's length and entries in order.
fn encode_dir_body_into(d: &Directory, out: &mut Vec<u8>)
    ensures
        final(out)@ == old(out)@ + crate::value::len_bytes(d.model().len() as u64)
            + crate::value::encode_dir_pairs(d.model()),
    decreases *d, 0nat,
{
    proof {
        lemma_entries_model_shape(d.entries@);
    }
    let n = d.entries.len();
    push_len(out, n as u64);
    let mut i: usize = 0;
    proof {
        assert(crate::value::encode_dir_pairs(d.model().take(0)) =~= Seq::<u8>::empty());
        assert(out@ =~= old(out)@ + crate::value::len_bytes(d.model().len() as u64)
            + crate::value::encode_dir_pairs(d.model().take(0)));
    }
    while i < n
        invariant
            0 <= i <= n,
            n == d.entries@.len(),
            d.model().len() == n,
            forall|j: int|
                0 <= j < n ==> (#[trigger] d.model()[j]) == (
                    d.entries@[j].name@,
                    d.entries@[j].node.value.model(),
                ),
            out@ == old(out)@ + crate::value::len_bytes(d.model().len() as u64)
                + crate::value::encode_dir_pairs(d.model().take(i as int)),
        decreases n - i,
    {
        let ghost out_before = out@;
        let entry = &d.entries[i];
        push_len(out, entry.name.len() as u64);
        push_bytes(out, entry.name.as_slice());
        proof {
            assert(decreases_to!(d.entries@ => entry.node));
        }
        encode_value_into(&entry.node.value, out);
        proof {
            let m = d.model();
            assert(m.take(i + 1).drop_last() =~= m.take(i as int));
            assert(m.take(i + 1).last() == m[i as int]);
            assert(m[i as int] == (entry.name@, entry.node.value.model()));
            assert(out@ =~= out_before + crate::value::len_bytes(entry.name@.len() as u64)
                + entry.name@ + crate::value::encode_model(entry.node.value.model()));
            assert(out@ =~= old(out)@ + crate::value::len_bytes(m.len() as u64)
                + crate::value::encode_dir_pairs(m.take(i + 1)));
        }
        i = i + 1;
    }
    proof {
        assert(d.model().take(n as int) =~= d.model());
    }
}

} // verus!
