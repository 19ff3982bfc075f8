use vstd::prelude::*;
use crate::record::{RecordView, Digest};
use crate::index::{BucketView, buckets_wf, multi_buckets, with_digests};
use crate::scan::{EntryMeta, recorded, entry_record, scan_index, holds_record, lemma_scan_records_eligible};
use crate::cache::{CacheEntry, probe_index, probed, probe_bucket};
use crate::group::{all_classes, lemma_class_members_from_index};

verus! {

/// Every record of `v` stands for an entry of `es` that a scan on device
/// `root_dev` records: a non-empty regular file, not a symbolic link, on
/// the root's device, with the record's path and size.
pub open spec fn eligible_in(v: Seq<BucketView>, es: Seq<EntryMeta>, root_dev: u64) -> bool {
    forall|b: int, k: int|
        0 <= b < v.len() && 0 <= k < v[b].1.len() ==> stands_for(es, root_dev, #[trigger] v[b].1[k])
}

/// Some entry of `es` that a scan on `root_dev` records has the path and
/// size of `r`.
pub open spec fn stands_for(es: Seq<EntryMeta>, root_dev: u64, r: RecordView) -> bool {
    exists|i: int|
        0 <= i < es.len() && recorded(#[trigger] es[i], root_dev) && es[i].path@ == r.path
            && es[i].size == r.size
}

/// Scanning one more listing keeps every record tied to a recorded entry
/// of all listings seen so far.
pub proof fn lemma_scan_keeps_eligible(
    v: Seq<BucketView>,
    seen: Seq<EntryMeta>,
    es: Seq<EntryMeta>,
    root_dev: u64,
)
    requires
        eligible_in(v, seen, root_dev),
    ensures
        eligible_in(scan_index(v, es, root_dev), seen + es, root_dev),
{
    let w = scan_index(v, es, root_dev);
    let all = seen + es;
    assert forall|b: int, k: int|
        0 <= b < w.len() && 0 <= k < w[b].1.len()
        implies stands_for(all, root_dev, #[trigger] w[b].1[k]) by {
        let r = w[b].1[k];
        assert(holds_record(w, r));
        lemma_scan_records_eligible(v, es, root_dev, r);
        if holds_record(v, r) {
            let (b2, k2) = choose|b2: int, k2: int|
                0 <= b2 < v.len() && 0 <= k2 < v[b2].1.len() && v[b2].1[k2] == r;
            assert(stands_for(seen, root_dev, v[b2].1[k2]));
            let i = choose|i: int|
                0 <= i < seen.len() && recorded(#[trigger] seen[i], root_dev) && seen[i].path@ == r.path
                    && seen[i].size == r.size;
            assert(all[i] == seen[i]);
        } else {
            let i = choose|i: int|
                0 <= i < es.len() && recorded(es[i], root_dev) && r == entry_record(#[trigger] es[i]);
            assert(all[seen.len() + i] == es[i]);
        }
    }
}

/// Keeping only buckets of two or more records keeps every record tied to
/// a recorded entry.
pub proof fn lemma_retain_keeps_eligible(v: Seq<BucketView>, es: Seq<EntryMeta>, root_dev: u64)
    requires
        eligible_in(v, es, root_dev),
    ensures
        eligible_in(multi_buckets(v), es, root_dev),
    decreases v.len(),
{
    if v.len() > 0 {
        let front = v.drop_last();
        assert forall|b: int, k: int|
            0 <= b < front.len() && 0 <= k < front[b].1.len()
            implies stands_for(es, root_dev, #[trigger] front[b].1[k]) by {
            assert(front[b] == v[b]);
            assert(stands_for(es, root_dev, v[b].1[k]));
        }
        lemma_retain_keeps_eligible(front, es, root_dev);
        let m = multi_buckets(v);
        if v.last().1.len() >= 2 {
            assert forall|b: int, k: int|
                0 <= b < m.len() && 0 <= k < m[b].1.len()
                implies stands_for(es, root_dev, #[trigger] m[b].1[k]) by {
                if b < multi_buckets(front).len() {
                    assert(m[b] == multi_buckets(front)[b]);
                    assert(stands_for(es, root_dev, multi_buckets(front)[b].1[k]));
                } else {
                    assert(m[b] == v[v.len() - 1]);
                    assert(stands_for(es, root_dev, v[v.len() - 1].1[k]));
                }
            }
        }
    }
}

/// Adopting cached digests keeps every record tied to a recorded entry.
pub proof fn lemma_probe_keeps_eligible(
    v: Seq<BucketView>,
    c: Seq<CacheEntry>,
    es: Seq<EntryMeta>,
    root_dev: u64,
)
    requires
        eligible_in(v, es, root_dev),
    ensures
        eligible_in(probe_index(v, c), es, root_dev),
{
    let w = probe_index(v, c);
    assert forall|b: int, k: int|
        0 <= b < w.len() && 0 <= k < w[b].1.len()
        implies stands_for(es, root_dev, #[trigger] w[b].1[k]) by {
        assert(w[b] == probe_bucket(v[b], c));
        assert(w[b].1[k] == probed(v[b].1[k], c));
        assert(v[b].1[k].path == w[b].1[k].path);
        assert(stands_for(es, root_dev, v[b].1[k]));
    }
}

/// Setting the digests of one record keeps every record tied to a
/// recorded entry.
pub proof fn lemma_digests_keep_eligible(
    v: Seq<BucketView>,
    es: Seq<EntryMeta>,
    root_dev: u64,
    b: int,
    j: int,
    blake3: Option<Digest>,
    sha2: Option<Digest>,
)
    requires
        eligible_in(v, es, root_dev),
        0 <= b < v.len(),
        0 <= j < v[b].1.len(),
    ensures
        eligible_in(
            v.update(b, (v[b].0, v[b].1.update(j, with_digests(v[b].1[j], blake3, sha2)))),
            es,
            root_dev,
        ),
{
    let w = v.update(b, (v[b].0, v[b].1.update(j, with_digests(v[b].1[j], blake3, sha2))));
    assert forall|b2: int, k: int|
        0 <= b2 < w.len() && 0 <= k < w[b2].1.len()
        implies stands_for(es, root_dev, #[trigger] w[b2].1[k]) by {
        assert(v[b2].1[k].path == w[b2].1[k].path && v[b2].1[k].size == w[b2].1[k].size);
        assert(stands_for(es, root_dev, v[b2].1[k]));
    }
}

/// Every member of every class that grouping forms stands for a recorded
/// entry: no symbolic link, no empty file and no file on another device
/// than the root's is ever a link source or destination.
pub proof fn lemma_classes_eligible(
    v: Seq<BucketView>,
    es: Seq<EntryMeta>,
    root_dev: u64,
    c: int,
    k: int,
)
    requires
        buckets_wf(v),
        eligible_in(v, es, root_dev),
        0 <= c < all_classes(v).len(),
        0 <= k < all_classes(v)[c].len(),
    ensures
        stands_for(es, root_dev, all_classes(v)[c][k]),
{
    lemma_class_members_from_index(v, c, k);
    let (b, i) = choose|b: int, i: int|
        0 <= b < v.len() && 0 <= i < v[b].1.len() && v[b].1[i] == all_classes(v)[c][k];
    assert(v[b].1[i] == all_classes(v)[c][k]);
    assert(stands_for(es, root_dev, v[b].1[i]));
}

} // verus!
