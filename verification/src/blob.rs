//! The blob store: content-addressed persistence of byte strings.
//!
//! The decisions of every store operation are verified here: hashing,
//! validation against an expected hash, alias recording, and the choice of
//! write steps. Each planning function turns the bytes to store and the
//! observed state of the store (does the target file exist, is the input
//! file exclusive) into an explicit plan; the surrounding program carries
//! the plan out on disk and in the alias database exactly as written. The
//! effect of a plan on a store is given by `apply_plan`, and the laws below
//! relate it to the canonical store transition `apply_save`.

use vstd::prelude::*;

use crate::hashing::{
    blake3_of, hex_decoded, hex_of, is_hex_digit, BlobHash, HashMismatch, ValidationHash,
    DIGEST_LEN,
};

verus! {

/// Mode bits of every stored blob file: read-only for everyone.
pub const BLOB_MODE: u32 = 0o444;

/// Modification time of every stored blob file, in seconds since the Unix
/// epoch: 2000-01-01T00:00:00Z, so byte-identical blobs look identical in
/// metadata on every machine.
pub const BLOB_EPOCH_SECONDS: u64 = 946684800;

/// At most this many blob saves may run at once.
pub const MAX_CONCURRENT_BLOB_SAVES: usize = 10;

// ---------------------------------------------------------------------------
// Save permits
// ---------------------------------------------------------------------------

/// A permit to run one blob save. Every planning function takes one, and
/// the field is private, so a permit only comes from drawing on a
/// `SaveBlobPermits` pool.
pub struct SaveBlobPermit {
    _held: (),
}

/// The pool of blob-save permits, bounding concurrent writers.
pub struct SaveBlobPermits {
    available: usize,
}

impl SaveBlobPermits {
    /// How many permits are currently available.
    pub closed spec fn spec_available(self) -> int {
        self.available as int
    }

    pub open spec fn wf(self) -> bool {
        0 <= self.spec_available() <= MAX_CONCURRENT_BLOB_SAVES
    }

    /// A full pool.
    pub fn new() -> (r: Self)
        ensures
            r.spec_available() == MAX_CONCURRENT_BLOB_SAVES,
            r.wf(),
    {
        SaveBlobPermits { available: MAX_CONCURRENT_BLOB_SAVES }
    }

    /// Draw a permit: succeeds exactly when one is available.
    pub fn get_save_blob_permit(&mut self) -> (r: Option<SaveBlobPermit>)
        requires
            old(self).wf(),
        ensures
            final(self).wf(),
            old(self).spec_available() > 0 ==> r is Some && final(self).spec_available() == old(
                self,
            ).spec_available() - 1,
            old(self).spec_available() == 0 ==> r is None && final(self).spec_available() == 0,
    {
        if self.available > 0 {
            self.available = self.available - 1;
            Some(SaveBlobPermit { _held: () })
        } else {
            None
        }
    }

    /// Return a permit to the pool.
    pub fn release(&mut self, permit: SaveBlobPermit)
        requires
            old(self).wf(),
            old(self).spec_available() < MAX_CONCURRENT_BLOB_SAVES,
        ensures
            final(self).wf(),
            final(self).spec_available() == old(self).spec_available() + 1,
    {
        self.available = self.available + 1;
    }
}

// ---------------------------------------------------------------------------
// Save options
// ---------------------------------------------------------------------------

/// Options of a blob save.
pub struct SaveBlobOptions {
    /// When set, the content must hash to this value under its algorithm,
    /// and on success the alias `display form -> blob hash` is recorded.
    pub expected_hash: Option<ValidationHash>,
    /// When set, the caller wants progress reported while bytes are read.
    pub report_progress: bool,
    /// When set, the input file is removed once its content is stored.
    pub remove_input: bool,
}

impl Default for SaveBlobOptions {
    fn default() -> (r: Self)
        ensures
            r.expected_hash is None,
            !r.report_progress,
            !r.remove_input,
    {
        SaveBlobOptions::new()
    }
}

impl SaveBlobOptions {
    pub fn new() -> (r: Self)
        ensures
            r.expected_hash is None,
            !r.report_progress,
            !r.remove_input,
    {
        SaveBlobOptions { expected_hash: None, report_progress: false, remove_input: false }
    }

    pub fn expected_hash(self, expected_hash: Option<ValidationHash>) -> (r: Self)
        ensures
            r.expected_hash == expected_hash,
            r.report_progress == self.report_progress,
            r.remove_input == self.remove_input,
    {
        SaveBlobOptions { expected_hash, ..self }
    }

    pub fn on_progress(self, report_progress: bool) -> (r: Self)
        ensures
            r.report_progress == report_progress,
            r.expected_hash == self.expected_hash,
            r.remove_input == self.remove_input,
    {
        SaveBlobOptions { report_progress, ..self }
    }

    pub fn remove_input(self, remove_input: bool) -> (r: Self)
        ensures
            r.remove_input == remove_input,
            r.expected_hash == self.expected_hash,
            r.report_progress == self.report_progress,
    {
        SaveBlobOptions { remove_input, ..self }
    }
}

// ---------------------------------------------------------------------------
// Store model
// ---------------------------------------------------------------------------

/// One blob file on disk: its bytes, mode bits, and modification time.
#[verifier::ext_equal]
pub ghost struct BlobFileModel {
    pub content: Seq<u8>,
    pub mode: u32,
    pub mtime: u64,
}

/// The store as the plans see it: the blob files under `<home>/blobs/`,
/// keyed by file name, and the alias table of the database, keyed by the
/// display form of a validation hash.
#[verifier::ext_equal]
pub ghost struct StoreModel {
    pub disk: Map<Seq<char>, BlobFileModel>,
    pub aliases: Map<Seq<char>, Seq<u8>>,
}

/// The file name of the blob with the given digest: its lowercase hex.
pub open spec fn blob_file_name(digest: Seq<u8>) -> Seq<char> {
    hex_of(digest)
}

/// The canonical on-disk form of a stored blob.
pub open spec fn canonical_blob_file(content: Seq<u8>) -> BlobFileModel {
    BlobFileModel { content, mode: BLOB_MODE, mtime: BLOB_EPOCH_SECONDS }
}

/// Whether a save of `content` passes validation against the options'
/// expected hash.
pub open spec fn save_validates(content: Seq<u8>, expected: Option<ValidationHash>) -> bool {
    match expected {
        Some(h) => h.is_hash_of(content),
        None => true,
    }
}

/// The canonical store transition of a successful save: the blob file is
/// present in canonical form, and when an expected hash was supplied its
/// alias points at the content's blob hash.
pub open spec fn apply_save(
    m: StoreModel,
    content: Seq<u8>,
    expected: Option<ValidationHash>,
) -> StoreModel {
    StoreModel {
        disk: m.disk.insert(blob_file_name(blake3_of(content)), canonical_blob_file(content)),
        aliases: match expected {
            Some(h) => m.aliases.insert(h.display_of(), blake3_of(content)),
            None => m.aliases,
        },
    }
}

/// Alias lookup on the store model.
pub open spec fn find_blob_model(m: StoreModel, h: ValidationHash) -> Option<Seq<u8>> {
    if m.aliases.dom().contains(h.display_of()) {
        Some(m.aliases[h.display_of()])
    } else {
        None
    }
}

// ---------------------------------------------------------------------------
// Paths
// ---------------------------------------------------------------------------

/// The path of the blob with the given digest.
pub open spec fn local_blob_path_of(home: Seq<char>, digest: Seq<u8>) -> Seq<char> {
    home + "/blobs/"@ + hex_of(digest)
}

/// The path of a temporary file used while writing a blob.
pub open spec fn temp_path_of(home: Seq<char>, name: Seq<char>) -> Seq<char> {
    home + "/blobs-temp/"@ + name
}

/// The local path of a blob: `<home>/blobs/<hex of its hash>`.
pub fn local_blob_path(home: &str, blob_hash: &BlobHash) -> (r: String)
    ensures
        r@ == local_blob_path_of(home@, blob_hash@),
{
    let mut s = String::new();
    s.append(home);
    s.append("/blobs/");
    let hex = blob_hash.to_hex();
    s.append(hex.as_str());
    s
}

/// The path of a temporary blob file: `<home>/blobs-temp/<name>`.
pub fn local_temp_path(home: &str, name: &str) -> (r: String)
    ensures
        r@ == temp_path_of(home@, name@),
{
    let mut s = String::new();
    s.append(home);
    s.append("/blobs-temp/");
    s.append(name);
    s
}

/// Relies on `ulid::Ulid::generate` and its canonical string form: a fresh
/// 26-character identifier drawn from time and randomness; nothing beyond
/// its length is promised of the value.
#[verifier::external_body]
fn new_temp_name() -> (r: String)
    ensures
        r@.len() == 26,
{
    ulid::Ulid::generate().to_string()
}

// ---------------------------------------------------------------------------
// Save plans
// ---------------------------------------------------------------------------

/// How the blob file itself is produced by a save from in-memory bytes.
pub enum BlobWriteStep {
    /// The blob file already exists: its bytes are not rewritten, but its
    /// mode is set to `BLOB_MODE` and its mtime to `BLOB_EPOCH_SECONDS`, so
    /// every save leaves the file in the canonical state.
    AlreadyPresent,
    /// Write the content to `<home>/blobs-temp/<temp_name>`, set its mode to
    /// `BLOB_MODE` and its mtime to `BLOB_EPOCH_SECONDS`, then rename it to
    /// the blob path.
    WriteTemp { temp_name: String },
}

/// The plan of one save of in-memory bytes: everything the store must do.
pub struct SaveBlobPlan {
    /// The hash of the saved content; the save's result.
    pub blob_hash: BlobHash,
    /// Where the blob file lives: `<home>/blobs/<hex>`.
    pub blob_path: String,
    /// When present, upsert `key -> hex of blob_hash` into the alias table.
    pub alias_key: Option<String>,
    /// When set, the caller asked for progress reports while the content is
    /// read.
    pub report_progress: bool,
    /// How the blob file is produced.
    pub step: BlobWriteStep,
}

/// What a well-formed plan for saving `content` under `options` looks like,
/// given whether the target file already existed.
pub open spec fn plan_ok_for(
    plan: SaveBlobPlan,
    home: Seq<char>,
    content: Seq<u8>,
    options: SaveBlobOptions,
    target_exists: bool,
) -> bool {
    &&& plan.blob_hash@ == blake3_of(content)
    &&& plan.blob_path@ == local_blob_path_of(home, blake3_of(content))
    &&& match options.expected_hash {
        Some(h) => plan.alias_key matches Some(k) && k@ == h.display_of(),
        None => plan.alias_key is None,
    }
    &&& plan.report_progress == options.report_progress
    &&& (plan.step is AlreadyPresent <==> target_exists)
}

/// The effect of carrying a plan out on a store: the write step produces the
/// blob file — or, when it is already present, keeps its bytes and refreshes
/// its mode and mtime to the canonical values — and the alias upsert records
/// the blob hash under the alias key.
pub open spec fn apply_plan(m: StoreModel, plan: SaveBlobPlan, content: Seq<u8>) -> StoreModel {
    let name = blob_file_name(plan.blob_hash@);
    StoreModel {
        disk: match plan.step {
            BlobWriteStep::AlreadyPresent => m.disk.insert(
                name,
                canonical_blob_file(m.disk[name].content),
            ),
            BlobWriteStep::WriteTemp { .. } => m.disk.insert(name, canonical_blob_file(content)),
        },
        aliases: match plan.alias_key {
            Some(k) => m.aliases.insert(k@, plan.blob_hash@),
            None => m.aliases,
        },
    }
}

/// Plan a save of in-memory bytes.
///
/// Fails exactly when an expected hash was supplied and the content does not
/// hash to it; no step of the plan exists then, so a failed save writes no
/// blob and no alias.
pub fn plan_save_blob(
    home: &str,
    permit: &SaveBlobPermit,
    bytes: &[u8],
    options: &SaveBlobOptions,
    target_exists: bool,
) -> (r: Result<SaveBlobPlan, HashMismatch>)
    ensures
        r is Ok <==> save_validates(bytes@, options.expected_hash),
        r matches Ok(plan) ==> plan_ok_for(plan, home@, bytes@, *options, target_exists)
            && plan.blob_hash.wf(),
{
    let blob_hash = BlobHash::for_content(bytes);
    let alias_key = match &options.expected_hash {
        Some(expected) => {
            if !expected.matches_content(bytes) {
                return Err(HashMismatch {});
            }
            Some(expected.display_string())
        },
        None => None,
    };
    let blob_path = local_blob_path(home, &blob_hash);
    let step = if target_exists {
        BlobWriteStep::AlreadyPresent
    } else {
        BlobWriteStep::WriteTemp { temp_name: new_temp_name() }
    };
    Ok(
        SaveBlobPlan {
            blob_hash,
            blob_path,
            alias_key,
            report_progress: options.report_progress,
            step,
        },
    )
}

/// An error of a save fed from a reader.
#[derive(Debug)]
pub enum SaveFromReaderError {
    /// `remove_input` cannot be honoured: a reader names no input file.
    RemoveInputUnsupported,
    /// The content does not hash to the expected hash.
    Mismatch,
}

/// Plan a save of bytes that were streamed from a reader.
///
/// Rejects `remove_input` (a reader names no file to remove); otherwise
/// plans like `plan_save_blob`, except that the blob file is always written
/// afresh: the rename over an existing file leaves the same canonical state.
pub fn plan_save_blob_from_reader(
    home: &str,
    permit: &SaveBlobPermit,
    bytes: &[u8],
    options: &SaveBlobOptions,
) -> (r: Result<SaveBlobPlan, SaveFromReaderError>)
    ensures
        options.remove_input ==> (r matches Err(e) && e is RemoveInputUnsupported),
        !options.remove_input ==> {
            &&& r is Ok <==> save_validates(bytes@, options.expected_hash)
            &&& (r matches Err(e) ==> e is Mismatch)
        },
        r matches Ok(plan) ==> plan_ok_for(plan, home@, bytes@, *options, false)
            && plan.blob_hash.wf(),
{
    if options.remove_input {
        return Err(SaveFromReaderError::RemoveInputUnsupported);
    }
    match plan_save_blob(home, permit, bytes, options, false) {
        Ok(plan) => Ok(plan),
        Err(HashMismatch {  }) => Err(SaveFromReaderError::Mismatch),
    }
}

/// How the blob file is produced by a save of an on-disk input file.
pub enum FileWriteStep {
    /// The blob file already exists: refresh its mode and mtime to the
    /// canonical values, and remove the input when asked to.
    RefreshExisting { remove_input: bool },
    /// The input file has no other hard link and may be consumed: set its
    /// mode to `BLOB_MODE` and its mtime to `BLOB_EPOCH_SECONDS`, then move
    /// it to the blob path.
    MoveInPlace,
    /// Copy the input to the blob path atomically, set the copy's mode and
    /// mtime to the canonical values, and remove the input when asked to.
    CopyIntoPlace { remove_input: bool },
}

/// The plan of one save of an on-disk input file.
pub struct SaveFileBlobPlan {
    pub blob_hash: BlobHash,
    pub blob_path: String,
    /// When present, upsert `key -> hex of blob_hash` into the alias table.
    pub alias_key: Option<String>,
    pub step: FileWriteStep,
}

/// What a well-formed plan for saving an input file holding `content`
/// looks like, given whether the blob file already existed and the input's
/// hard-link count.
pub open spec fn file_plan_ok_for(
    plan: SaveFileBlobPlan,
    home: Seq<char>,
    content: Seq<u8>,
    options: SaveBlobOptions,
    target_exists: bool,
    input_nlink: u64,
) -> bool {
    &&& plan.blob_hash@ == blake3_of(content)
    &&& plan.blob_path@ == local_blob_path_of(home, blake3_of(content))
    &&& match options.expected_hash {
        Some(h) => plan.alias_key matches Some(k) && k@ == h.display_of(),
        None => plan.alias_key is None,
    }
    &&& plan.step == (if target_exists {
        FileWriteStep::RefreshExisting { remove_input: options.remove_input }
    } else if options.remove_input && input_nlink == 1 {
        FileWriteStep::MoveInPlace
    } else {
        FileWriteStep::CopyIntoPlace { remove_input: options.remove_input }
    })
}

/// The effect of carrying a file-save plan out on the store: a refresh
/// keeps the existing file's bytes and sets the canonical mode and mtime; a
/// move or a copy produces the canonical file from the input's content.
/// (The input file itself lives outside the store; whether it is removed is
/// fixed by the step's `remove_input` flag.)
pub open spec fn apply_file_plan(
    m: StoreModel,
    plan: SaveFileBlobPlan,
    content: Seq<u8>,
) -> StoreModel {
    let name = blob_file_name(plan.blob_hash@);
    StoreModel {
        disk: match plan.step {
            FileWriteStep::RefreshExisting { .. } => m.disk.insert(
                name,
                canonical_blob_file(m.disk[name].content),
            ),
            FileWriteStep::MoveInPlace => m.disk.insert(name, canonical_blob_file(content)),
            FileWriteStep::CopyIntoPlace { .. } => m.disk.insert(
                name,
                canonical_blob_file(content),
            ),
        },
        aliases: match plan.alias_key {
            Some(k) => m.aliases.insert(k@, plan.blob_hash@),
            None => m.aliases,
        },
    }
}

/// Plan a save of an input file whose bytes have been read.
///
/// `target_exists` says whether the blob file is already present;
/// `input_nlink` is the input file's hard-link count. The input is moved
/// into place only when it is to be removed anyway and has no other hard
/// link, since the canonical mode bits would otherwise mutate every other
/// link to it.
pub fn plan_save_blob_from_file(
    home: &str,
    permit: &SaveBlobPermit,
    file_bytes: &[u8],
    options: &SaveBlobOptions,
    target_exists: bool,
    input_nlink: u64,
) -> (r: Result<SaveFileBlobPlan, HashMismatch>)
    ensures
        r is Ok <==> save_validates(file_bytes@, options.expected_hash),
        r matches Ok(plan) ==> file_plan_ok_for(
            plan,
            home@,
            file_bytes@,
            *options,
            target_exists,
            input_nlink,
        ) && plan.blob_hash.wf(),
{
    let blob_hash = BlobHash::for_content(file_bytes);
    let alias_key = match &options.expected_hash {
        Some(expected) => {
            if !expected.matches_content(file_bytes) {
                return Err(HashMismatch {});
            }
            Some(expected.display_string())
        },
        None => None,
    };
    let blob_path = local_blob_path(home, &blob_hash);
    let step = if target_exists {
        FileWriteStep::RefreshExisting { remove_input: options.remove_input }
    } else if options.remove_input && is_file_exclusive(input_nlink) {
        FileWriteStep::MoveInPlace
    } else {
        FileWriteStep::CopyIntoPlace { remove_input: options.remove_input }
    };
    Ok(SaveFileBlobPlan { blob_hash, blob_path, alias_key, step })
}

/// An input file may be consumed in place exactly when it has no other hard
/// link.
pub fn is_file_exclusive(nlink: u64) -> (r: bool)
    ensures
        r == (nlink == 1),
{
    nlink == 1
}

// ---------------------------------------------------------------------------
// Retrieval
// ---------------------------------------------------------------------------

/// Where the bytes of a blob come from.
pub enum BlobPathPlan {
    /// The blob file is present; use it.
    Local { path: String },
    /// The blob is absent: fetch its bytes from the registry, then store
    /// them at `path` via `check_fetched_blob`.
    Fetch { path: String },
}

/// Plan the lookup of a blob's local path.
pub fn plan_blob_path(
    home: &str,
    permit: &SaveBlobPermit,
    blob_hash: &BlobHash,
    exists_locally: bool,
) -> (r: BlobPathPlan)
    ensures
        exists_locally ==> (r matches BlobPathPlan::Local { path } && path@
            == local_blob_path_of(home@, blob_hash@)),
        !exists_locally ==> (r matches BlobPathPlan::Fetch { path } && path@
            == local_blob_path_of(home@, blob_hash@)),
{
    let path = local_blob_path(home, blob_hash);
    if exists_locally {
        BlobPathPlan::Local { path }
    } else {
        BlobPathPlan::Fetch { path }
    }
}

/// Check bytes fetched from the registry against the blob hash they were
/// requested under, and plan their atomic write. Succeeds exactly when the
/// bytes hash to the requested blob hash, whatever the registry returned.
pub fn check_fetched_blob(
    home: &str,
    blob_hash: &BlobHash,
    bytes: &[u8],
) -> (r: Result<SaveBlobPlan, HashMismatch>)
    ensures
        r is Ok <==> blob_hash@ == blake3_of(bytes@),
        r matches Ok(plan) ==> {
            &&& plan.blob_hash@ == blob_hash@
            &&& plan.blob_path@ == local_blob_path_of(home@, blob_hash@)
            &&& plan.alias_key is None
            &&& plan.step is WriteTemp
        },
{
    match blob_hash.validate_matches(bytes) {
        Ok(()) => {
            let hash = BlobHash::for_content(bytes);
            let blob_path = local_blob_path(home, &hash);
            Ok(
                SaveBlobPlan {
                    blob_hash: hash,
                    blob_path,
                    alias_key: None,
                    report_progress: false,
                    step: BlobWriteStep::WriteTemp { temp_name: new_temp_name() },
                },
            )
        },
        Err(e) => Err(e),
    }
}

/// Parse the alias table's answer to a blob lookup: no row means no alias;
/// a row must hold the hex of a blob hash.
pub fn parse_blob_alias_row(row: Option<&[u8]>) -> (r: Result<Option<BlobHash>, HashTextError>)
    ensures
        row is None ==> (r matches Ok(v) && v is None),
        row matches Some(s) ==> {
            if s@.len() == 2 * DIGEST_LEN && (forall|i: int|
                0 <= i < s@.len() ==> is_hex_digit(#[trigger] s@[i])) {
                r matches Ok(v) && (v matches Some(h) && h@ == hex_decoded(s@))
            } else {
                r is Err
            }
        },
{
    match row {
        None => Ok(None),
        Some(s) => match BlobHash::from_hex(s) {
            Some(h) => Ok(Some(h)),
            None => Err(HashTextError {}),
        },
    }
}

/// An error returned when a stored hash string cannot be parsed.
#[derive(Debug)]
pub struct HashTextError {}

// ---------------------------------------------------------------------------
// Laws
// ---------------------------------------------------------------------------

/// Carrying out a plan does to the store exactly what the canonical save
/// transition says, provided the existence the plan was made from is the
/// store's, and an already-present target holds the content being saved —
/// whatever mode bits and mtime it was found with, since the plan
/// refreshes them.
pub proof fn lemma_plan_matches_model(
    m: StoreModel,
    plan: SaveBlobPlan,
    home: Seq<char>,
    content: Seq<u8>,
    options: SaveBlobOptions,
    target_exists: bool,
)
    requires
        plan_ok_for(plan, home, content, options, target_exists),
        target_exists == m.disk.dom().contains(blob_file_name(blake3_of(content))),
        target_exists ==> m.disk[blob_file_name(blake3_of(content))].content == content,
    ensures
        apply_plan(m, plan, content) == apply_save(m, content, options.expected_hash),
{
    let name = blob_file_name(blake3_of(content));
    match plan.step {
        BlobWriteStep::AlreadyPresent => {
            assert(canonical_blob_file(m.disk[name].content) == canonical_blob_file(content));
        },
        BlobWriteStep::WriteTemp { .. } => {},
    }
    match options.expected_hash {
        Some(h) => {
            assert(apply_plan(m, plan, content).aliases =~= apply_save(
                m,
                content,
                options.expected_hash,
            ).aliases);
        },
        None => {},
    }
    assert(apply_plan(m, plan, content) =~= apply_save(m, content, options.expected_hash));
}

/// Every plan leaves the blob file with the canonical mode bits and the
/// canonical modification time, whatever state it was found in.
pub proof fn lemma_plan_canonicalizes(m: StoreModel, plan: SaveBlobPlan, content: Seq<u8>)
    ensures
        apply_plan(m, plan, content).disk[blob_file_name(plan.blob_hash@)].mode == BLOB_MODE,
        apply_plan(m, plan, content).disk[blob_file_name(plan.blob_hash@)].mtime
            == BLOB_EPOCH_SECONDS,
{
}

/// Carrying out a file-save plan does to the store exactly what the
/// canonical save transition says, provided the existence the plan was made
/// from is the store's, and an already-present target holds the content
/// being saved — whatever mode bits and mtime it was found with.
pub proof fn lemma_file_plan_matches_model(
    m: StoreModel,
    plan: SaveFileBlobPlan,
    home: Seq<char>,
    content: Seq<u8>,
    options: SaveBlobOptions,
    target_exists: bool,
    input_nlink: u64,
)
    requires
        file_plan_ok_for(plan, home, content, options, target_exists, input_nlink),
        target_exists == m.disk.dom().contains(blob_file_name(blake3_of(content))),
        target_exists ==> m.disk[blob_file_name(blake3_of(content))].content == content,
    ensures
        apply_file_plan(m, plan, content) == apply_save(m, content, options.expected_hash),
{
    let name = blob_file_name(blake3_of(content));
    match plan.step {
        FileWriteStep::RefreshExisting { .. } => {
            assert(canonical_blob_file(m.disk[name].content) == canonical_blob_file(content));
        },
        _ => {},
    }
    match options.expected_hash {
        Some(h) => {
            assert(apply_file_plan(m, plan, content).aliases =~= apply_save(
                m,
                content,
                options.expected_hash,
            ).aliases);
        },
        None => {},
    }
    assert(apply_file_plan(m, plan, content) =~= apply_save(m, content, options.expected_hash));
}

/// Every file-save plan leaves the blob file with the canonical mode bits
/// and the canonical modification time, whatever state it was found in.
pub proof fn lemma_file_plan_canonicalizes(
    m: StoreModel,
    plan: SaveFileBlobPlan,
    content: Seq<u8>,
)
    ensures
        apply_file_plan(m, plan, content).disk[blob_file_name(plan.blob_hash@)].mode
            == BLOB_MODE,
        apply_file_plan(m, plan, content).disk[blob_file_name(plan.blob_hash@)].mtime
            == BLOB_EPOCH_SECONDS,
{
}

/// Blob idempotence: saving the same content twice is the same as saving it
/// once, and the blob file then holds exactly that content.
pub proof fn lemma_save_idempotent(
    m: StoreModel,
    content: Seq<u8>,
    expected: Option<ValidationHash>,
)
    ensures
        apply_save(apply_save(m, content, expected), content, expected) == apply_save(
            m,
            content,
            expected,
        ),
        apply_save(m, content, expected).disk[blob_file_name(blake3_of(content))].content
            == content,
{
    let m1 = apply_save(m, content, expected);
    let m2 = apply_save(m1, content, expected);
    assert(m2.disk =~= m1.disk);
    assert(m2.aliases =~= m1.aliases);
    assert(m2 =~= m1);
}

/// Blob canonicalization: after any save the blob file has the canonical
/// mode bits and the canonical modification time.
pub proof fn lemma_save_canonicalizes(
    m: StoreModel,
    content: Seq<u8>,
    expected: Option<ValidationHash>,
)
    ensures
        apply_save(m, content, expected).disk[blob_file_name(blake3_of(content))].mode
            == BLOB_MODE,
        apply_save(m, content, expected).disk[blob_file_name(blake3_of(content))].mtime
            == BLOB_EPOCH_SECONDS,
{
}

/// Alias correctness: after a save with an expected hash succeeds, looking
/// that hash up finds the content's blob hash.
pub proof fn lemma_alias_correct(m: StoreModel, content: Seq<u8>, h: ValidationHash)
    requires
        save_validates(content, Some(h)),
    ensures
        find_blob_model(apply_save(m, content, Some(h)), h) == Some(blake3_of(content)),
{
}

} // verus!
