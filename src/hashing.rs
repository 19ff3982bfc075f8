use vstd::prelude::*;
use crate::record::Digest;

verus! {

#[verifier::external_type_specification]
#[verifier::external_body]
pub struct ExBlake3Hasher(blake3::Hasher);

/// A running SHA-256 computation: the sha2 crate's `Sha256`, seen only
/// through the bytes it has been fed.
#[verifier::external_body]
pub struct Sha256State {
    inner: sha2::Sha256,
}

/// The bytes a BLAKE3 hasher has been fed so far.
pub uninterp spec fn blake3_input(h: blake3::Hasher) -> Seq<u8>;

/// The BLAKE3 digest of `data`.
pub uninterp spec fn blake3_digest(data: Seq<u8>) -> Digest;

/// The bytes a SHA-256 hasher has been fed so far.
pub uninterp spec fn sha256_input(h: Sha256State) -> Seq<u8>;

/// The SHA-256 digest of `data`.
pub uninterp spec fn sha256_digest(data: Seq<u8>) -> Digest;

/// Relies on blake3::Hasher::new: a hasher with no input yet.
#[verifier::external_body]
fn blake3_new() -> (h: blake3::Hasher)
    ensures
        blake3_input(h) == Seq::<u8>::empty(),
{
    blake3::Hasher::new()
}

/// Relies on blake3::Hasher::update: the bytes are appended to the input.
#[verifier::external_body]
fn blake3_update(h: &mut blake3::Hasher, data: &[u8])
    ensures
        blake3_input(*final(h)) == blake3_input(*old(h)) + data@,
{
    h.update(data);
}

/// Relies on blake3::Hasher::finalize: the digest of all input so far.
#[verifier::external_body]
fn blake3_finalize(h: &blake3::Hasher) -> (r: Digest)
    ensures
        r == blake3_digest(blake3_input(*h)),
{
    h.finalize().into()
}

/// Relies on sha2::Sha256::new (trait sha2::Digest): a hasher with no
/// input yet.
#[verifier::external_body]
fn sha256_new() -> (h: Sha256State)
    ensures
        sha256_input(h) == Seq::<u8>::empty(),
{
    Sha256State { inner: <sha2::Sha256 as sha2::Digest>::new() }
}

/// Relies on sha2::Digest::update for Sha256: the bytes are appended to
/// the input.
#[verifier::external_body]
fn sha256_update(h: &mut Sha256State, data: &[u8])
    ensures
        sha256_input(*final(h)) == sha256_input(*old(h)) + data@,
{
    sha2::Digest::update(&mut h.inner, data);
}

/// Relies on sha2::Digest::finalize for Sha256: the digest of all input.
#[verifier::external_body]
fn sha256_finalize(h: Sha256State) -> (r: Digest)
    ensures
        r == sha256_digest(sha256_input(h)),
{
    sha2::Digest::finalize(h.inner).into()
}

/// The digests of one file.
pub struct FileDigests {
    /// BLAKE3 digest.
    pub blake3: Digest,
    /// SHA-256 digest, in paranoid mode only.
    pub sha2: Option<Digest>,
}

/// Hashes the content of one file as it is read, buffer after buffer:
/// with BLAKE3 always, and with SHA-256 as well in paranoid mode.
pub struct FileHasher {
    b3: blake3::Hasher,
    s2: Option<Sha256State>,
}

impl FileHasher {
    /// The bytes fed so far.
    pub closed spec fn input(&self) -> Seq<u8> {
        blake3_input(self.b3)
    }

    /// Whether the second digest is computed.
    pub closed spec fn paranoid(&self) -> bool {
        self.s2.is_some()
    }

    /// Both hashers have seen the same bytes.
    pub closed spec fn wf(&self) -> bool {
        match self.s2 {
            Some(h) => sha256_input(h) == blake3_input(self.b3),
            None => true,
        }
    }

    pub fn new(paranoid: bool) -> (r: FileHasher)
        ensures
            r.wf(),
            r.input() == Seq::<u8>::empty(),
            r.paranoid() == paranoid,
    {
        let s2 = if paranoid {
            Some(sha256_new())
        } else {
            None
        };
        FileHasher { b3: blake3_new(), s2 }
    }

    /// Feeds the next bytes of the file.
    pub fn update(&mut self, data: &[u8])
        requires
            old(self).wf(),
        ensures
            final(self).wf(),
            final(self).input() == old(self).input() + data@,
            final(self).paranoid() == old(self).paranoid(),
    {
        blake3_update(&mut self.b3, data);
        match &mut self.s2 {
            Some(h) => sha256_update(h, data),
            None => {},
        }
    }

    /// The digests of everything fed.
    pub fn finish(self) -> (r: FileDigests)
        requires
            self.wf(),
        ensures
            r.blake3 == blake3_digest(self.input()),
            r.sha2 == (if self.paranoid() {
                Some(sha256_digest(self.input()))
            } else {
                None
            }),
    {
        let blake3 = blake3_finalize(&self.b3);
        let sha2 = match self.s2 {
            Some(h) => Some(sha256_finalize(h)),
            None => None,
        };
        FileDigests { blake3, sha2 }
    }
}

} // verus!
