use vstd::prelude::*;

verus! {

/// A 32-byte content digest.
pub type Digest = [u8; 32];

/// One candidate file of a scanned tree.
#[derive(Debug)]
pub struct IdxRecord {
    /// Path relative to the scan root, byte-exact.
    pub path: Vec<u8>,
    pub size: u64,
    /// Modification time in seconds since the Unix epoch.
    pub mtime: i64,
    /// Primary digest (BLAKE3).
    pub blake3: Option<Digest>,
    /// Secondary digest (SHA-256), only in paranoid mode.
    pub sha2: Option<Digest>,
}

/// The mathematical value of an `IdxRecord`.
pub struct RecordView {
    pub path: Seq<u8>,
    pub size: u64,
    pub mtime: i64,
    pub blake3: Option<Digest>,
    pub sha2: Option<Digest>,
}

impl View for IdxRecord {
    type V = RecordView;

    open spec fn view(&self) -> RecordView {
        RecordView {
            path: self.path@,
            size: self.size,
            mtime: self.mtime,
            blake3: self.blake3,
            sha2: self.sha2,
        }
    }
}

impl RecordView {
    /// Two records belong to one equivalence class when size and both
    /// digests agree.
    pub open spec fn same_content(self, other: RecordView) -> bool {
        self.size == other.size && self.blake3 == other.blake3 && self.sha2 == other.sha2
    }
}

impl IdxRecord {
    /// A freshly scanned record, with no digest yet.
    pub fn new(path: Vec<u8>, size: u64, mtime: i64) -> (r: IdxRecord)
        ensures
            r@ == (RecordView { path: path@, size, mtime, blake3: None, sha2: None }),
    {
        IdxRecord { path, size, mtime, blake3: None, sha2: None }
    }
}

/// What the hash cache keeps of one file.
#[derive(Debug, Clone, Copy)]
pub struct IdxFileRecord {
    pub size: u64,
    pub mtime: i64,
    pub hash: Option<Digest>,
}

/// Byte-wise equality of two digests.
pub fn digest_eq(a: &Digest, b: &Digest) -> (r: bool)
    ensures
        r == (*a == *b),
{
    let mut i: usize = 0;
    while i < 32
        invariant
            0 <= i <= 32,
            forall|k: int| 0 <= k < i ==> a[k] == b[k],
        decreases 32 - i,
    {
        if a[i] != b[i] {
            return false;
        }
        i += 1;
    }
    proof {
        assert(a@ =~= b@);
        broadcast use vstd::array::group_array_axioms;
        assert(*a =~= *b);
    }
    true
}

/// Equality of two optional digests.
pub fn opt_digest_eq(a: &Option<Digest>, b: &Option<Digest>) -> (r: bool)
    ensures
        r == (*a == *b),
{
    match (a, b) {
        (Some(x), Some(y)) => digest_eq(x, y),
        (None, None) => true,
        _ => false,
    }
}

/// Byte-wise equality of two paths.
pub fn bytes_eq(a: &Vec<u8>, b: &Vec<u8>) -> (r: bool)
    ensures
        r == (a@ == b@),
{
    if a.len() != b.len() {
        return false;
    }
    let mut i: usize = 0;
    while i < a.len()
        invariant
            a@.len() == b@.len(),
            0 <= i <= a@.len(),
            forall|k: int| 0 <= k < i ==> a@[k] == b@[k],
        decreases a@.len() - i,
    {
        if a[i] != b[i] {
            return false;
        }
        i += 1;
    }
    assert(a@ =~= b@);
    true
}

} // verus!
