//! Hashing primitives: BLAKE3 content hashes, hex encoding of digests, and
//! the validation hashes (currently SHA-256) used to check externally
//! supplied expected hashes.

use vstd::prelude::*;

use sha2::Digest;

verus! {

/// Length in bytes of a BLAKE3 digest, and of a SHA-256 digest.
pub const DIGEST_LEN: usize = 32;

// ---------------------------------------------------------------------------
// Hex encoding and decoding of digests
// ---------------------------------------------------------------------------

/// The ASCII code of the lowercase hex digit for a nibble.
pub open spec fn nibble_ascii(n: u8) -> u8
    recommends
        n < 16,
{
    if n < 10 {
        (0x30 + n) as u8
    } else {
        (0x57 + n) as u8
    }
}

/// Lowercase hex encoding of a byte string, as ASCII bytes: two digits per
/// byte, high nibble first.
pub open spec fn hex_ascii_of(bytes: Seq<u8>) -> Seq<u8>
    decreases bytes.len(),
{
    if bytes.len() == 0 {
        Seq::empty()
    } else {
        seq![nibble_ascii(bytes[0] / 16), nibble_ascii(bytes[0] % 16)] + hex_ascii_of(
            bytes.drop_first(),
        )
    }
}

/// Lowercase hex encoding of a byte string, as characters.
pub open spec fn hex_of(bytes: Seq<u8>) -> Seq<char> {
    hex_ascii_of(bytes).map_values(|b: u8| b as char)
}

/// Whether an ASCII byte is a hex digit (either case).
pub open spec fn is_hex_digit(b: u8) -> bool {
    (0x30 <= b && b <= 0x39) || (0x61 <= b && b <= 0x66) || (0x41 <= b && b <= 0x46)
}

/// The value of an ASCII hex digit; meaningful only when `is_hex_digit`.
pub open spec fn hex_digit_value(b: u8) -> u8 {
    if 0x30 <= b && b <= 0x39 {
        (b - 0x30) as u8
    } else if 0x61 <= b && b <= 0x66 {
        (b - 0x57) as u8
    } else if 0x41 <= b && b <= 0x46 {
        (b - 0x37) as u8
    } else {
        0
    }
}

/// The byte string denoted by a hex string: pairs of digits, high nibble
/// first. Meaningful only when every byte of `s` is a hex digit.
pub open spec fn hex_decoded(s: Seq<u8>) -> Seq<u8> {
    Seq::new(
        (s.len() / 2) as nat,
        |i: int| (16 * hex_digit_value(s[2 * i]) + hex_digit_value(s[2 * i + 1])) as u8,
    )
}

/// Shape of a hex encoding: each byte maps to its two digits in place.
pub proof fn lemma_hex_ascii_shape(bytes: Seq<u8>)
    ensures
        hex_ascii_of(bytes).len() == 2 * bytes.len(),
        forall|i: int|
            0 <= i < bytes.len() ==> hex_ascii_of(bytes)[2 * i] == nibble_ascii(bytes[i] / 16)
                && hex_ascii_of(bytes)[2 * i + 1] == nibble_ascii(bytes[i] % 16),
    decreases bytes.len(),
{
    if bytes.len() > 0 {
        lemma_hex_ascii_shape(bytes.drop_first());
        assert forall|i: int| 0 <= i < bytes.len() implies hex_ascii_of(bytes)[2 * i]
            == nibble_ascii(bytes[i] / 16) && hex_ascii_of(bytes)[2 * i + 1] == nibble_ascii(
            bytes[i] % 16,
        ) by {
            if i > 0 {
                assert(bytes.drop_first()[i - 1] == bytes[i]);
                assert(hex_ascii_of(bytes)[2 * i] == hex_ascii_of(bytes.drop_first())[2 * (i - 1)]);
                assert(hex_ascii_of(bytes)[2 * i + 1] == hex_ascii_of(bytes.drop_first())[2 * (i
                    - 1) + 1]);
            }
        }
    }
}

/// Decoding a hex encoding gives back the original bytes.
pub proof fn lemma_hex_round_trip(bytes: Seq<u8>)
    ensures
        hex_decoded(hex_ascii_of(bytes)) == bytes,
        forall|i: int|
            0 <= i < hex_ascii_of(bytes).len() ==> is_hex_digit(#[trigger] hex_ascii_of(bytes)[i]),
{
    lemma_hex_ascii_shape(bytes);
    assert forall|i: int| 0 <= i < hex_ascii_of(bytes).len() implies is_hex_digit(
        #[trigger] hex_ascii_of(bytes)[i],
    ) by {
        let j = i / 2;
        assert(0 <= j < bytes.len());
        if i % 2 == 0 {
            assert(i == 2 * j);
            assert(hex_ascii_of(bytes)[i] == nibble_ascii(bytes[j] / 16));
        } else {
            assert(i == 2 * j + 1);
            assert(hex_ascii_of(bytes)[i] == nibble_ascii(bytes[j] % 16));
        }
    }
    assert forall|i: int| 0 <= i < bytes.len() implies hex_decoded(hex_ascii_of(bytes))[i]
        == bytes[i] by {
        assert(hex_ascii_of(bytes)[2 * i] == nibble_ascii(bytes[i] / 16));
        assert(hex_ascii_of(bytes)[2 * i + 1] == nibble_ascii(bytes[i] % 16));
        assert(hex_digit_value(nibble_ascii(bytes[i] / 16)) == bytes[i] / 16);
        assert(hex_digit_value(nibble_ascii(bytes[i] % 16)) == bytes[i] % 16);
    }
    assert(hex_decoded(hex_ascii_of(bytes)) =~= bytes);
}

/// Relies on `hex::encode`: every input byte becomes exactly two lowercase
/// hex digits, high nibble first, in input order.
#[verifier::external_body]
pub fn hex_encode(bytes: &[u8]) -> (r: String)
    ensures
        r@ == hex_of(bytes@),
{
    hex::encode(bytes)
}

/// Compare two byte strings.
pub fn bytes_eq(a: &[u8], b: &[u8]) -> (r: bool)
    ensures
        r == (a@ == b@),
{
    if a.len() != b.len() {
        return false;
    }
    let mut i: usize = 0;
    while i < a.len()
        invariant
            0 <= i <= a@.len(),
            a@.len() == b@.len(),
            forall|j: int| 0 <= j < i ==> a@[j] == b@[j],
        decreases a@.len() - i,
    {
        if a[i] != b[i] {
            return false;
        }
        i = i + 1;
    }
    proof {
        assert(a@ =~= b@);
    }
    true
}

// ---------------------------------------------------------------------------
// Content hashes
// ---------------------------------------------------------------------------

/// The BLAKE3 digest of a byte string: 32 bytes, a function of the input
/// bytes alone.
pub uninterp spec fn blake3_of(bytes: Seq<u8>) -> Seq<u8>;

/// The SHA-256 digest of a byte string: 32 bytes, a function of the input
/// bytes alone.
pub uninterp spec fn sha256_of(bytes: Seq<u8>) -> Seq<u8>;

/// Relies on `blake3::hash`: returns the 32-byte BLAKE3 digest of the input,
/// which depends on the input bytes alone.
#[verifier::external_body]
pub fn blake3_hash(bytes: &[u8]) -> (r: Vec<u8>)
    ensures
        r@ == blake3_of(bytes@),
        r@.len() == DIGEST_LEN,
{
    blake3::hash(bytes).as_bytes().to_vec()
}

/// Relies on `sha2::Sha256::digest`: returns the 32-byte SHA-256 digest of
/// the input, which depends on the input bytes alone.
#[verifier::external_body]
pub fn sha256_hash(bytes: &[u8]) -> (r: Vec<u8>)
    ensures
        r@ == sha256_of(bytes@),
        r@.len() == DIGEST_LEN,
{
    sha2::Sha256::digest(bytes).to_vec()
}

// ---------------------------------------------------------------------------
// BlobHash
// ---------------------------------------------------------------------------

/// A 32-byte BLAKE3 digest naming a blob. Displayed as lowercase hex;
/// equality is byte equality.
#[derive(Debug)]
pub struct BlobHash {
    bytes: Vec<u8>,
}

impl View for BlobHash {
    type V = Seq<u8>;

    closed spec fn view(&self) -> Seq<u8> {
        self.bytes@
    }
}

impl Clone for BlobHash {
    fn clone(&self) -> (r: Self)
        ensures
            r@ == self@,
    {
        BlobHash { bytes: clone_bytes(&self.bytes) }
    }
}

/// Copy a byte vector.
pub fn clone_bytes(v: &Vec<u8>) -> (r: Vec<u8>)
    ensures
        r@ == v@,
{
    let mut r: Vec<u8> = Vec::new();
    let mut i: usize = 0;
    while i < v.len()
        invariant
            0 <= i <= v@.len(),
            r@ == v@.subrange(0, i as int),
        decreases v@.len() - i,
    {
        r.push(v[i]);
        i = i + 1;
    }
    proof {
        assert(r@ =~= v@);
    }
    r
}

impl BlobHash {
    /// A blob hash is well formed when it holds exactly one digest.
    pub open spec fn wf(self) -> bool {
        self@.len() == DIGEST_LEN
    }

    /// The blob hash of a byte string: its BLAKE3 digest.
    pub fn for_content(content: &[u8]) -> (r: BlobHash)
        ensures
            r@ == blake3_of(content@),
            r.wf(),
    {
        BlobHash { bytes: blake3_hash(content) }
    }

    /// Construct a blob hash from raw digest bytes.
    pub fn from_bytes(bytes: Vec<u8>) -> (r: BlobHash)
        requires
            bytes@.len() == DIGEST_LEN,
        ensures
            r@ == bytes@,
            r.wf(),
    {
        BlobHash { bytes }
    }

    /// The raw digest bytes.
    pub fn as_bytes(&self) -> (r: &[u8])
        ensures
            r@ == self@,
    {
        self.bytes.as_slice()
    }

    /// Whether two blob hashes name the same blob.
    pub fn same_as(&self, other: &BlobHash) -> (r: bool)
        ensures
            r == (self@ == other@),
    {
        bytes_eq(self.bytes.as_slice(), other.bytes.as_slice())
    }

    /// Succeeds exactly when `content` hashes to this blob hash.
    pub fn validate_matches(&self, content: &[u8]) -> (r: Result<(), HashMismatch>)
        ensures
            r is Ok <==> self@ == blake3_of(content@),
    {
        let actual = blake3_hash(content);
        if bytes_eq(self.bytes.as_slice(), actual.as_slice()) {
            Ok(())
        } else {
            Err(HashMismatch {})
        }
    }

    /// The lowercase hex form of the digest.
    pub fn to_hex(&self) -> (r: String)
        ensures
            r@ == hex_of(self@),
    {
        hex_encode(self.bytes.as_slice())
    }

    /// Parse a digest from ASCII hex: succeeds exactly on 64 hex digits.
    pub fn from_hex(s: &[u8]) -> (r: Option<BlobHash>)
        ensures
            r is Some <==> (s@.len() == 2 * DIGEST_LEN && forall|i: int|
                0 <= i < s@.len() ==> is_hex_digit(#[trigger] s@[i])),
            r matches Some(h) ==> h@ == hex_decoded(s@) && h.wf(),
    {
        if s.len() != 2 * DIGEST_LEN {
            return None;
        }
        let mut bytes: Vec<u8> = Vec::new();
        let mut i: usize = 0;
        while i < DIGEST_LEN
            invariant
                0 <= i <= DIGEST_LEN,
                s@.len() == 2 * DIGEST_LEN,
                bytes@.len() == i,
                forall|j: int| 0 <= j < 2 * i ==> is_hex_digit(#[trigger] s@[j]),
                forall|j: int| 0 <= j < i ==> bytes@[j] == hex_decoded(s@)[j],
            decreases DIGEST_LEN - i,
        {
            let hi = s[2 * i];
            let lo = s[2 * i + 1];
            match (hex_digit_exec(hi), hex_digit_exec(lo)) {
                (Some(h), Some(l)) => {
                    bytes.push(16 * h + l);
                },
                _ => {
                    return None;
                },
            }
            i = i + 1;
        }
        Some(BlobHash { bytes })
    }
}

/// The value of an ASCII hex digit, or `None` when the byte is no hex digit.
pub fn hex_digit_exec(b: u8) -> (r: Option<u8>)
    ensures
        r is Some <==> is_hex_digit(b),
        r matches Some(v) ==> v == hex_digit_value(b) && v < 16,
{
    if 0x30 <= b && b <= 0x39 {
        Some(b - 0x30)
    } else if 0x61 <= b && b <= 0x66 {
        Some(b - 0x57)
    } else if 0x41 <= b && b <= 0x46 {
        Some(b - 0x37)
    } else {
        None
    }
}

/// Digest parsing inverts digest printing: the hex form of a digest parses
/// back to the digest itself.
pub proof fn lemma_digest_hex_round_trip(digest: Seq<u8>)
    requires
        digest.len() == DIGEST_LEN,
    ensures
        hex_ascii_of(digest).len() == 2 * DIGEST_LEN,
        hex_decoded(hex_ascii_of(digest)) == digest,
        forall|i: int|
            0 <= i < hex_ascii_of(digest).len() ==> is_hex_digit(
                #[trigger] hex_ascii_of(digest)[i],
            ),
{
    lemma_hex_ascii_shape(digest);
    lemma_hex_round_trip(digest);
}

// ---------------------------------------------------------------------------
// Validation hashes
// ---------------------------------------------------------------------------

/// An error returned when content does not hash to an expected digest.
#[derive(Debug)]
pub struct HashMismatch {}

/// An externally supplied hash used to validate content; tagged by
/// algorithm. Such a hash never names a blob directly: on a successful
/// validation it is mapped to the blob's BLAKE3 hash via the alias table.
#[derive(Debug)]
pub enum ValidationHash {
    Sha256 { value: Vec<u8> },
}

impl ValidationHash {
    /// The digest bytes carried by the hash.
    pub open spec fn digest(self) -> Seq<u8> {
        match self {
            ValidationHash::Sha256 { value } => value@,
        }
    }

    /// Well formed: the digest has the algorithm's length.
    pub open spec fn wf(self) -> bool {
        match self {
            ValidationHash::Sha256 { value } => value@.len() == DIGEST_LEN,
        }
    }

    /// Whether this hash is the hash of `content` under its own algorithm.
    pub open spec fn is_hash_of(self, content: Seq<u8>) -> bool {
        match self {
            ValidationHash::Sha256 { value } => value@ == sha256_of(content),
        }
    }

    /// The display form of the hash: the algorithm name, a colon, and the
    /// digest in lowercase hex.
    pub open spec fn display_of(self) -> Seq<char> {
        match self {
            ValidationHash::Sha256 { value } => "sha256:"@ + hex_of(value@),
        }
    }

    /// Recompute the hash of `content` under this hash's algorithm and
    /// compare: true exactly when this hash is the hash of `content`.
    pub fn matches_content(&self, content: &[u8]) -> (r: bool)
        ensures
            r == self.is_hash_of(content@),
    {
        match self {
            ValidationHash::Sha256 { value } => {
                let actual = sha256_hash(content);
                bytes_eq(value.as_slice(), actual.as_slice())
            },
        }
    }

    /// The display form, used as the key of the alias table.
    pub fn display_string(&self) -> (r: String)
        ensures
            r@ == self.display_of(),
    {
        match self {
            ValidationHash::Sha256 { value } => {
                let hex = hex_encode(value.as_slice());
                let mut s = String::new();
                s.append("sha256:");
                s.append(hex.as_str());
                s
            },
        }
    }
}

impl Clone for ValidationHash {
    fn clone(&self) -> (r: Self)
        ensures
            r.digest() == self.digest(),
            r.display_of() == self.display_of(),
            forall|content: Seq<u8>| r.is_hash_of(content) == self.is_hash_of(content),
    {
        match self {
            ValidationHash::Sha256 { value } => ValidationHash::Sha256 {
                value: clone_bytes(value),
            },
        }
    }
}

} // verus!
