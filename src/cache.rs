use vstd::prelude::*;
use crate::record::{IdxFileRecord, RecordView, Digest, bytes_eq};
use crate::index::{Index, BucketView, buckets_wf, with_digests, all_records};
use crate::hashing::FileDigests;

verus! {

/// One entry of the hash cache of a tree: a relative path and what was
/// known of that file.
#[derive(Debug)]
pub struct CacheEntry {
    pub path: Vec<u8>,
    pub record: IdxFileRecord,
}

/// No two entries of the cache share a path: the cache maps each path to
/// one record.
pub open spec fn paths_unique(c: Seq<CacheEntry>) -> bool {
    forall|i: int, j: int| 0 <= i < j < c.len() ==> (#[trigger] c[i]).path@ != (#[trigger] c[j]).path@
}

/// The cached digest for a record: `Some(hash)` of the entry with the
/// record's path where its size and modification time are the record's,
/// `None` where there is no such entry.
pub open spec fn cache_match(c: Seq<CacheEntry>, r: RecordView) -> Option<Option<Digest>>
    decreases c.len(),
{
    if c.len() == 0 {
        None
    } else if c.last().path@ == r.path && c.last().record.size == r.size
        && c.last().record.mtime == r.mtime {
        Some(c.last().record.hash)
    } else {
        cache_match(c.drop_last(), r)
    }
}

/// A record after the cache probe: a matching entry gives its digest.
pub open spec fn probed(r: RecordView, c: Seq<CacheEntry>) -> RecordView {
    match cache_match(c, r) {
        Some(h) => with_digests(r, h, r.sha2),
        None => r,
    }
}

pub open spec fn probe_bucket(b: BucketView, c: Seq<CacheEntry>) -> BucketView {
    (b.0, b.1.map_values(|r: RecordView| probed(r, c)))
}

/// The index after the cache probe of every record.
pub open spec fn probe_index(v: Seq<BucketView>, c: Seq<CacheEntry>) -> Seq<BucketView> {
    v.map_values(|b: BucketView| probe_bucket(b, c))
}

/// Record `pos.1` of bucket `pos.0` exists.
pub open spec fn valid_pos(v: Seq<BucketView>, pos: (usize, usize)) -> bool {
    pos.0 < v.len() && pos.1 < v[pos.0 as int].1.len()
}

/// The record at `pos` is to be hashed: always in paranoid mode, else
/// where it has no digest.
pub open spec fn needs_hash(v: Seq<BucketView>, pos: (usize, usize), paranoid: bool) -> bool {
    paranoid || v[pos.0 as int].1[pos.1 as int].blake3.is_none()
}

pub open spec fn pos_lt(a: (usize, usize), b: (usize, usize)) -> bool {
    a.0 < b.0 || (a.0 == b.0 && a.1 < b.1)
}

/// `p` lists, in increasing order and each once, exactly the positions of
/// the records of `v` that are to be hashed.
pub open spec fn pending_of(v: Seq<BucketView>, p: Seq<(usize, usize)>, paranoid: bool) -> bool {
    &&& forall|k: int| 0 <= k < p.len() ==> valid_pos(v, #[trigger] p[k]) && needs_hash(v, p[k], paranoid)
    &&& forall|k1: int, k2: int| 0 <= k1 < k2 < p.len() ==> pos_lt(#[trigger] p[k1], #[trigger] p[k2])
    &&& forall|pos: (usize, usize)|
        valid_pos(v, pos) && needs_hash(v, pos, paranoid) ==> #[trigger] p.contains(pos)
}

proof fn lemma_match_other_size(c: Seq<CacheEntry>, k: int, r: RecordView)
    requires
        0 <= k < c.len(),
        c[k].record.size != r.size,
    ensures
        cache_match(c.take(k + 1), r) == cache_match(c.take(k), r),
{
    assert(c.take(k + 1).drop_last() =~= c.take(k));
}

/// Adopts, for every record, the digest of the cache entry with the same
/// path, size and modification time.
fn apply_cache(index: &mut Index, cache: &Vec<CacheEntry>)
    requires
        old(index).wf(),
    ensures
        final(index).wf(),
        final(index)@ == probe_index(old(index)@, cache@),
{
    let ghost v0 = index@;
    let mut k: usize = 0;
    proof {
        assert forall|b: int| 0 <= b < v0.len() implies #[trigger] probe_index(v0, cache@.take(0))[b] == v0[b] by {
            assert(probe_bucket(v0[b], cache@.take(0)).1 =~= v0[b].1);
        }
        assert(probe_index(v0, cache@.take(0)) =~= v0);
    }
    while k < cache.len()
        invariant
            0 <= k <= cache@.len(),
            index.wf(),
            buckets_wf(v0),
            index@ == probe_index(v0, cache@.take(k as int)),
        decreases cache@.len() - k,
    {
        let e = &cache[k];
        let ghost c0 = cache@.take(k as int);
        let ghost c1 = cache@.take(k as int + 1);
        assert(c1.drop_last() =~= c0);
        assert(c1.last() == *e);
        assert(c1.len() == k + 1);
        match index.find_bucket(e.record.size) {
            Some(b) => {
                let n = index.bucket_len(b);
                let mut j: usize = 0;
                while j < n
                    invariant
                        0 <= j <= n,
                        b < v0.len(),
                        n == v0[b as int].1.len(),
                        v0[b as int].0 == e.record.size,
                        c1.len() == k + 1,
                        c1.drop_last() == c0,
                        c1.last() == *e,
                        index.wf(),
                        buckets_wf(v0),
                        index@.len() == v0.len(),
                        forall|bb: int| 0 <= bb < v0.len() && bb != b ==>
                            #[trigger] index@[bb] == probe_bucket(v0[bb], c0),
                        index@[b as int].0 == v0[b as int].0,
                        index@[b as int].1.len() == n,
                        forall|jj: int| 0 <= jj < j ==>
                            #[trigger] index@[b as int].1[jj] == probed(v0[b as int].1[jj], c1),
                        forall|jj: int| j <= jj < n ==>
                            #[trigger] index@[b as int].1[jj] == probed(v0[b as int].1[jj], c0),
                    decreases n - j,
                {
                    let rec = index.record(b, j);
                    let ghost r0 = v0[b as int].1[j as int];
                    assert(r0.size == v0[b as int].0);
                    if rec.mtime == e.record.mtime && bytes_eq(&rec.path, &e.path) {
                        let sha2 = rec.sha2;
                        index.set_hashes(b, j, e.record.hash, sha2);
                        assert(cache_match(c1, r0) == Some(e.record.hash));
                        assert(index@[b as int].1[j as int] == probed(r0, c1));
                    } else {
                        assert(cache_match(c1, r0) == cache_match(c0, r0));
                    }
                    j += 1;
                }
                proof {
                    assert forall|bb: int| 0 <= bb < v0.len() implies #[trigger] index@[bb] == probe_bucket(v0[bb], c1) by {
                        if bb != b {
                            assert forall|jj: int| 0 <= jj < v0[bb].1.len() implies
                                probed(v0[bb].1[jj], c1) == probed(v0[bb].1[jj], c0) by {
                                assert(v0[bb].1[jj].size == v0[bb].0);
                                assert(v0[bb].0 != v0[b as int].0);
                            }
                            assert(probe_bucket(v0[bb], c1).1 =~= probe_bucket(v0[bb], c0).1);
                        } else {
                            assert(index@[bb].1 =~= probe_bucket(v0[bb], c1).1);
                        }
                    }
                    assert(index@ =~= probe_index(v0, c1));
                }
            },
            None => {
                proof {
                    assert forall|bb: int| 0 <= bb < v0.len() implies #[trigger] index@[bb] == probe_bucket(v0[bb], c1) by {
                        assert forall|jj: int| 0 <= jj < v0[bb].1.len() implies
                            probed(v0[bb].1[jj], c1) == probed(v0[bb].1[jj], c0) by {
                            assert(index@[bb].0 == v0[bb].0);
                            assert(index@[bb].0 != e.record.size);
                            assert(v0[bb].1[jj].size == v0[bb].0);
                        }
                        assert(probe_bucket(v0[bb], c1).1 =~= probe_bucket(v0[bb], c0).1);
                    }
                    assert(index@ =~= probe_index(v0, c1));
                }
            },
        }
        k += 1;
    }
    assert(cache@.take(cache@.len() as int) =~= cache@);
}

/// The positions of the records to hash, bucket after bucket.
fn pending_hashes(index: &Index, paranoid: bool) -> (p: Vec<(usize, usize)>)
    ensures
        pending_of(index@, p@, paranoid),
{
    let ghost v = index@;
    let mut p: Vec<(usize, usize)> = Vec::new();
    let nb = index.bucket_count();
    let mut b: usize = 0;
    while b < nb
        invariant
            0 <= b <= nb,
            nb == v.len(),
            v == index@,
            forall|k: int| 0 <= k < p@.len() ==> valid_pos(v, #[trigger] p@[k]) && needs_hash(v, p@[k], paranoid),
            forall|k: int| 0 <= k < p@.len() ==> (#[trigger] p@[k]).0 < b,
            forall|k1: int, k2: int| 0 <= k1 < k2 < p@.len() ==> pos_lt(#[trigger] p@[k1], #[trigger] p@[k2]),
            forall|pos: (usize, usize)|
                pos.0 < b && valid_pos(v, pos) && needs_hash(v, pos, paranoid) ==> #[trigger] p@.contains(pos),
        decreases nb - b,
    {
        let n = index.bucket_len(b);
        let mut j: usize = 0;
        while j < n
            invariant
                0 <= j <= n,
                b < nb,
                nb == v.len(),
                v == index@,
                n == v[b as int].1.len(),
                forall|k: int| 0 <= k < p@.len() ==> valid_pos(v, #[trigger] p@[k]) && needs_hash(v, p@[k], paranoid),
                forall|k: int| 0 <= k < p@.len() ==> (#[trigger] p@[k]).0 < b || (p@[k].0 == b && p@[k].1 < j),
                forall|k1: int, k2: int| 0 <= k1 < k2 < p@.len() ==> pos_lt(#[trigger] p@[k1], #[trigger] p@[k2]),
                forall|pos: (usize, usize)|
                    (pos.0 < b || (pos.0 == b && pos.1 < j)) && valid_pos(v, pos) && needs_hash(v, pos, paranoid)
                        ==> #[trigger] p@.contains(pos),
            decreases n - j,
        {
            let rec = index.record(b, j);
            if paranoid || rec.blake3.is_none() {
                let ghost p0 = p@;
                p.push((b, j));
                proof {
                    assert(p@[p0.len() as int] == (b, j));
                    assert forall|pos: (usize, usize)|
                        (pos.0 < b || (pos.0 == b && pos.1 < j + 1)) && valid_pos(v, pos) && needs_hash(v, pos, paranoid)
                            implies #[trigger] p@.contains(pos) by {
                        if pos == (b, j) {
                            assert(p@[p0.len() as int] == pos);
                        } else {
                            assert(p0.contains(pos));
                            let k = choose|k: int| 0 <= k < p0.len() && p0[k] == pos;
                            assert(p@[k] == pos);
                        }
                    }
                }
            } else {
                proof {
                    assert forall|pos: (usize, usize)|
                        (pos.0 < b || (pos.0 == b && pos.1 < j + 1)) && valid_pos(v, pos) && needs_hash(v, pos, paranoid)
                            implies #[trigger] p@.contains(pos) by {
                        if pos == (b, j) {
                            assert(!needs_hash(v, pos, paranoid));
                        }
                    }
                }
            }
            j += 1;
        }
        b += 1;
    }
    p
}

/// Looks up every record of the index in the cache of its tree, unless
/// in paranoid mode, and adopts the cached digest of an entry with the
/// same path, size and modification time. Returns the positions, as
/// (bucket, record), of the records still to hash: in paranoid mode all of
/// them, else those without a digest; in increasing order, each once.
pub fn make_file_hashes(index: &mut Index, cache: &Vec<CacheEntry>, paranoid: bool) -> (p: Vec<
    (usize, usize),
>)
    requires
        old(index).wf(),
        paths_unique(cache@),
    ensures
        final(index).wf(),
        final(index)@ == (if paranoid {
            old(index)@
        } else {
            probe_index(old(index)@, cache@)
        }),
        pending_of(final(index)@, p@, paranoid),
{
    if !paranoid {
        apply_cache(index, cache);
    }
    pending_hashes(index, paranoid)
}

/// Records the digests computed for the record at `pos`.
pub fn set_digests(index: &mut Index, pos: (usize, usize), d: &FileDigests)
    requires
        old(index).wf(),
        valid_pos(old(index)@, pos),
    ensures
        final(index).wf(),
        final(index)@ == old(index)@.update(
            pos.0 as int,
            (
                old(index)@[pos.0 as int].0,
                old(index)@[pos.0 as int].1.update(
                    pos.1 as int,
                    with_digests(old(index)@[pos.0 as int].1[pos.1 as int], Some(d.blake3), d.sha2),
                ),
            ),
        ),
{
    index.set_hashes(pos.0, pos.1, Some(d.blake3), d.sha2);
}

/// Outside paranoid mode, a record whose path, size and modification time
/// match a cache entry that holds a digest takes that digest, keeps its
/// secondary digest, and is not hashed again.
pub proof fn lemma_cached_not_rehashed(
    v: Seq<BucketView>,
    c: Seq<CacheEntry>,
    p: Seq<(usize, usize)>,
    pos: (usize, usize),
    h: Digest,
)
    requires
        pending_of(probe_index(v, c), p, false),
        valid_pos(v, pos),
        cache_match(c, v[pos.0 as int].1[pos.1 as int]) == Some(Some(h)),
    ensures
        !p.contains(pos),
        probe_index(v, c)[pos.0 as int].1[pos.1 as int].blake3 == Some(h),
        probe_index(v, c)[pos.0 as int].1[pos.1 as int].sha2 == v[pos.0 as int].1[pos.1 as int].sha2,
{
    let w = probe_index(v, c);
    assert(w[pos.0 as int].1[pos.1 as int].blake3 == Some(h));
    if p.contains(pos) {
        let k = choose|k: int| 0 <= k < p.len() && p[k] == pos;
        assert(needs_hash(w, p[k], false));
    }
}

/// Outside paranoid mode, a tree whose every record matches a cache entry
/// that holds a digest has no file to hash.
pub proof fn lemma_cached_tree_not_rehashed(
    v: Seq<BucketView>,
    c: Seq<CacheEntry>,
    p: Seq<(usize, usize)>,
)
    requires
        pending_of(probe_index(v, c), p, false),
        forall|b: int, k: int|
            0 <= b < v.len() && 0 <= k < v[b].1.len() ==> exists|h: Digest|
                cache_match(c, #[trigger] v[b].1[k]) == Some(Some(h)),
    ensures
        p.len() == 0,
{
    if p.len() > 0 {
        let pos = p[0];
        assert(valid_pos(probe_index(v, c), pos));
        assert(valid_pos(v, pos));
        let h = choose|h: Digest| cache_match(c, v[pos.0 as int].1[pos.1 as int]) == Some(Some(h));
        lemma_cached_not_rehashed(v, c, p, pos, h);
        assert(p.contains(pos));
    }
}

/// In paranoid mode every record is hashed, each exactly once.
pub proof fn lemma_paranoid_hashes_all(v: Seq<BucketView>, p: Seq<(usize, usize)>, pos: (usize, usize))
    requires
        pending_of(v, p, true),
        valid_pos(v, pos),
    ensures
        p.contains(pos),
        forall|k1: int, k2: int| 0 <= k1 < k2 < p.len() ==> p[k1] != p[k2],
{
    assert forall|k1: int, k2: int| 0 <= k1 < k2 < p.len() implies p[k1] != p[k2] by {
        assert(pos_lt(p[k1], p[k2]));
    }
}

/// What the cache keeps of a sequence of records: one entry, in order, for
/// each record that has a primary digest.
pub open spec fn cache_view(rs: Seq<RecordView>) -> Seq<(Seq<u8>, IdxFileRecord)>
    decreases rs.len(),
{
    if rs.len() == 0 {
        seq![]
    } else if rs.last().blake3.is_some() {
        cache_view(rs.drop_last()).push(
            (rs.last().path, IdxFileRecord { size: rs.last().size, mtime: rs.last().mtime, hash: rs.last().blake3 }),
        )
    } else {
        cache_view(rs.drop_last())
    }
}

pub open spec fn entries_view(es: Seq<CacheEntry>) -> Seq<(Seq<u8>, IdxFileRecord)> {
    es.map_values(|e: CacheEntry| (e.path@, e.record))
}

/// The cache entries that replace those of a tree after hashing: one per
/// record with a primary digest, bucket after bucket.
pub fn indexfile_entries(index: &Index) -> (r: Vec<CacheEntry>)
    ensures
        entries_view(r@) == cache_view(all_records(index@)),
{
    let ghost v = index@;
    let mut r: Vec<CacheEntry> = Vec::new();
    let nb = index.bucket_count();
    let mut b: usize = 0;
    assert(entries_view(r@) =~= cache_view(all_records(v.take(0))));
    while b < nb
        invariant
            0 <= b <= nb,
            nb == v.len(),
            v == index@,
            entries_view(r@) == cache_view(all_records(v.take(b as int))),
        decreases nb - b,
    {
        let n = index.bucket_len(b);
        let mut j: usize = 0;
        let ghost before = all_records(v.take(b as int));
        assert(v.take(b as int + 1).drop_last() =~= v.take(b as int));
        assert(before + v[b as int].1.take(0) =~= before);
        while j < n
            invariant
                0 <= j <= n,
                b < nb,
                nb == v.len(),
                v == index@,
                n == v[b as int].1.len(),
                entries_view(r@) == cache_view(before + v[b as int].1.take(j as int)),
            decreases n - j,
        {
            let rec = index.record(b, j);
            let ghost s0 = before + v[b as int].1.take(j as int);
            assert((before + v[b as int].1.take(j as int + 1)).drop_last() =~= s0);
            if rec.blake3.is_some() {
                let ghost e0 = entries_view(r@);
                let e = CacheEntry {
                    path: rec.path.clone(),
                    record: IdxFileRecord { size: rec.size, mtime: rec.mtime, hash: rec.blake3 },
                };
                r.push(e);
                assert(entries_view(r@) =~= e0.push((rec.path@, e.record)));
            }
            j += 1;
        }
        assert(v[b as int].1.take(n as int) =~= v[b as int].1);
        b += 1;
    }
    assert(v.take(nb as int) =~= v);
    r
}

} // verus!
