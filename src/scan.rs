use vstd::prelude::*;
use crate::record::{IdxRecord, RecordView};
use crate::index::{Index, BucketView, index_insert, bucket_of};

verus! {

/// What one directory listing says of one entry.
#[derive(Debug)]
pub struct EntryMeta {
    /// Path relative to the scan root, byte-exact.
    pub path: Vec<u8>,
    /// The entry itself is a symbolic link.
    pub is_symlink: bool,
    pub is_dir: bool,
    /// The entry is a regular file.
    pub is_file: bool,
    /// Device of the entry.
    pub dev: u64,
    pub size: u64,
    /// Modification time in seconds since the Unix epoch.
    pub mtime: i64,
}

/// The scan descends into the entry: a directory, not a symbolic link, on
/// the scan root's device.
pub open spec fn descends(e: EntryMeta, root_dev: u64) -> bool {
    !e.is_symlink && e.is_dir && e.dev == root_dev
}

/// The scan records the entry: a non-empty regular file, not a symbolic
/// link, on the scan root's device.
pub open spec fn recorded(e: EntryMeta, root_dev: u64) -> bool {
    !e.is_symlink && !e.is_dir && e.is_file && e.size > 0 && e.dev == root_dev
}

pub open spec fn entry_record(e: EntryMeta) -> RecordView {
    RecordView { path: e.path@, size: e.size, mtime: e.mtime, blake3: None, sha2: None }
}

/// The index after the recorded entries of a listing, in order.
pub open spec fn scan_index(v: Seq<BucketView>, es: Seq<EntryMeta>, root_dev: u64) -> Seq<
    BucketView,
>
    decreases es.len(),
{
    if es.len() == 0 {
        v
    } else if recorded(es.last(), root_dev) {
        index_insert(scan_index(v, es.drop_last(), root_dev), entry_record(es.last()))
    } else {
        scan_index(v, es.drop_last(), root_dev)
    }
}

/// The paths of the entries that the scan descends into, in order.
pub open spec fn scan_subdirs(es: Seq<EntryMeta>, root_dev: u64) -> Seq<Seq<u8>>
    decreases es.len(),
{
    if es.len() == 0 {
        seq![]
    } else if descends(es.last(), root_dev) {
        scan_subdirs(es.drop_last(), root_dev).push(es.last().path@)
    } else {
        scan_subdirs(es.drop_last(), root_dev)
    }
}

/// Takes in the listing of one directory of a tree whose root lies on
/// device `root_dev`: records its non-empty regular files in the index,
/// and returns the subdirectories to scan next. Symbolic links and entries
/// on another device are passed over.
pub fn scandir(index: &mut Index, root_dev: u64, entries: &Vec<EntryMeta>) -> (subdirs: Vec<
    Vec<u8>,
>)
    requires
        old(index).wf(),
    ensures
        final(index).wf(),
        final(index)@ == scan_index(old(index)@, entries@, root_dev),
        subdirs@.map_values(|p: Vec<u8>| p@) == scan_subdirs(entries@, root_dev),
{
    let mut subdirs: Vec<Vec<u8>> = Vec::new();
    let mut i: usize = 0;
    let ghost v0 = index@;
    assert(entries@.take(0) =~= Seq::<EntryMeta>::empty());
    assert(subdirs@.map_values(|p: Vec<u8>| p@) =~= scan_subdirs(entries@.take(0), root_dev));
    while i < entries.len()
        invariant
            0 <= i <= entries@.len(),
            index.wf(),
            index@ == scan_index(v0, entries@.take(i as int), root_dev),
            subdirs@.map_values(|p: Vec<u8>| p@) == scan_subdirs(entries@.take(i as int), root_dev),
        decreases entries@.len() - i,
    {
        let e = &entries[i];
        assert(entries@.take(i as int + 1).drop_last() =~= entries@.take(i as int));
        if !e.is_symlink {
            if e.is_dir {
                if e.dev == root_dev {
                    let ghost s0 = subdirs@.map_values(|p: Vec<u8>| p@);
                    let p = e.path.clone();
                    subdirs.push(p);
                    assert(subdirs@.map_values(|p: Vec<u8>| p@) =~= s0.push(e.path@));
                }
            } else if e.is_file && e.size > 0 && e.dev == root_dev {
                let r = IdxRecord::new(e.path.clone(), e.size, e.mtime);
                index.insert(r);
            }
        }
        i += 1;
    }
    assert(entries@.take(entries@.len() as int) =~= entries@);
    subdirs
}

/// `r` is a record of some bucket of `v`.
pub open spec fn holds_record(v: Seq<BucketView>, r: RecordView) -> bool {
    exists|b: int, k: int| 0 <= b < v.len() && 0 <= k < v[b].1.len() && v[b].1[k] == r
}

proof fn lemma_insert_records(v: Seq<BucketView>, x: RecordView, r: RecordView)
    requires
        holds_record(index_insert(v, x), r),
    ensures
        holds_record(v, r) || r == x,
{
    let w = index_insert(v, x);
    let (b, k) = choose|b: int, k: int| 0 <= b < w.len() && 0 <= k < w[b].1.len() && w[b].1[k] == r;
    match bucket_of(v, x.size) {
        Some(i) => {
            if b != i || k < v[i].1.len() {
                assert(v[b].1[k] == r);
            }
        },
        None => {
            if b < v.len() {
                assert(v[b].1[k] == r);
            }
        },
    }
}

/// A scan adds to the index only records of entries that it records: no
/// symbolic link, no empty file, nothing on another device than the
/// root's.
pub proof fn lemma_scan_records_eligible(
    v: Seq<BucketView>,
    es: Seq<EntryMeta>,
    root_dev: u64,
    r: RecordView,
)
    requires
        holds_record(scan_index(v, es, root_dev), r),
    ensures
        holds_record(v, r) || exists|i: int|
            0 <= i < es.len() && recorded(es[i], root_dev) && r == entry_record(#[trigger] es[i]),
    decreases es.len(),
{
    if es.len() > 0 {
        let front = es.drop_last();
        if recorded(es.last(), root_dev) {
            lemma_insert_records(scan_index(v, front, root_dev), entry_record(es.last()), r);
            if r == entry_record(es.last()) {
                assert(r == entry_record(es[es.len() - 1]));
            } else {
                lemma_scan_records_eligible(v, front, root_dev, r);
            }
        } else {
            lemma_scan_records_eligible(v, front, root_dev, r);
        }
        if !holds_record(v, r) && r != entry_record(es.last()) {
            let i = choose|i: int|
                0 <= i < front.len() && recorded(front[i], root_dev) && r == entry_record(#[trigger] front[i]);
            assert(es[i] == front[i]);
        }
    }
}

/// A scan descends only into directories that are not symbolic links and
/// lie on the root's device.
pub proof fn lemma_scan_subdirs_eligible(es: Seq<EntryMeta>, root_dev: u64, k: int)
    requires
        0 <= k < scan_subdirs(es, root_dev).len(),
    ensures
        exists|i: int|
            0 <= i < es.len() && descends(es[i], root_dev) && #[trigger] scan_subdirs(es, root_dev)[k]
                == es[i].path@,
    decreases es.len(),
{
    let front = es.drop_last();
    let t = scan_subdirs(front, root_dev);
    if k < t.len() {
        lemma_scan_subdirs_eligible(front, root_dev, k);
        let i = choose|i: int| 0 <= i < front.len() && descends(front[i], root_dev) && t[k] == front[i].path@;
        assert(es[i] == front[i]);
        assert(scan_subdirs(es, root_dev)[k] == es[i].path@);
    } else {
        assert(scan_subdirs(es, root_dev)[k] == es[es.len() - 1].path@);
    }
}

} // verus!
