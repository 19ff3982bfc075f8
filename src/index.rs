use vstd::prelude::*;
use std::collections::HashMap;
use crate::record::{IdxRecord, RecordView, Digest};

verus! {

broadcast use vstd::std_specs::hash::group_hash_axioms;

/// The records of one file size.
#[derive(Debug)]
pub struct Bucket {
    pub size: u64,
    pub records: Vec<IdxRecord>,
}

/// The view of a bucket: its size and its records.
pub type BucketView = (u64, Seq<RecordView>);

pub open spec fn records_view(v: Seq<IdxRecord>) -> Seq<RecordView> {
    v.map_values(|r: IdxRecord| r@)
}

impl View for Bucket {
    type V = BucketView;

    open spec fn view(&self) -> BucketView {
        (self.size, records_view(self.records@))
    }
}

/// The size index: a mapping from file size to the records of that size,
/// kept as a sequence of buckets with pairwise distinct sizes.
pub struct Index {
    buckets: Vec<Bucket>,
    slots: HashMap<u64, usize>,
}

/// Every record of every bucket has the bucket's size, and that size is
/// not zero; no two buckets share a size.
pub open spec fn buckets_wf(v: Seq<BucketView>) -> bool {
    &&& forall|i: int, j: int| 0 <= i < j < v.len() ==> v[i].0 != v[j].0
    &&& forall|i: int, k: int|
        0 <= i < v.len() && 0 <= k < v[i].1.len() ==> (#[trigger] v[i].1[k]).size == v[i].0
    &&& forall|i: int| 0 <= i < v.len() ==> #[trigger] v[i].0 > 0
}

/// The position of the bucket of `size`, if there is one.
pub open spec fn bucket_of(v: Seq<BucketView>, size: u64) -> Option<int> {
    if exists|i: int| 0 <= i < v.len() && v[i].0 == size {
        Some(choose|i: int| 0 <= i < v.len() && v[i].0 == size)
    } else {
        None
    }
}

/// The index after one more record: appended to the bucket of its size,
/// or in a new bucket at the end.
pub open spec fn index_insert(v: Seq<BucketView>, r: RecordView) -> Seq<BucketView> {
    match bucket_of(v, r.size) {
        Some(i) => v.update(i, (v[i].0, v[i].1.push(r))),
        None => v.push((r.size, seq![r])),
    }
}

/// A record with the given digests.
pub open spec fn with_digests(r: RecordView, blake3: Option<Digest>, sha2: Option<Digest>) -> RecordView {
    RecordView { path: r.path, size: r.size, mtime: r.mtime, blake3, sha2 }
}

/// The buckets that hold at least two records.
pub open spec fn multi_buckets(v: Seq<BucketView>) -> Seq<BucketView>
    decreases v.len(),
{
    if v.len() == 0 {
        seq![]
    } else if v.last().1.len() >= 2 {
        multi_buckets(v.drop_last()).push(v.last())
    } else {
        multi_buckets(v.drop_last())
    }
}

/// All records of the index, bucket after bucket.
pub open spec fn all_records(v: Seq<BucketView>) -> Seq<RecordView>
    decreases v.len(),
{
    if v.len() == 0 {
        seq![]
    } else {
        all_records(v.drop_last()) + v.last().1
    }
}

impl View for Index {
    type V = Seq<BucketView>;

    closed spec fn view(&self) -> Seq<BucketView> {
        self.buckets@.map_values(|b: Bucket| b@)
    }
}

impl Index {
    pub closed spec fn slots_wf(&self) -> bool {
        &&& forall|s: u64| #[trigger]
            self.slots@.contains_key(s) <==> exists|i: int|
                0 <= i < self.buckets@.len() && self.buckets@[i].size == s
        &&& forall|s: u64| #[trigger]
            self.slots@.contains_key(s) ==> self.slots@[s] < self.buckets@.len()
                && self.buckets@[self.slots@[s] as int].size == s
    }

    /// The internal invariant of the index.
    pub open spec fn wf(&self) -> bool {
        buckets_wf(self@) && self.slots_wf()
    }

    /// An empty index.
    pub fn new() -> (r: Index)
        ensures
            r.wf(),
            r@ == Seq::<BucketView>::empty(),
    {
        let r = Index { buckets: Vec::new(), slots: HashMap::new() };
        assert(r@ =~= Seq::<BucketView>::empty());
        r
    }

    /// Number of buckets.
    pub fn bucket_count(&self) -> (r: usize)
        ensures
            r == self@.len(),
    {
        self.buckets.len()
    }

    /// The bucket at position `i`.
    pub fn bucket(&self, i: usize) -> (r: &Bucket)
        requires
            i < self@.len(),
        ensures
            r@ == self@[i as int],
    {
        &self.buckets[i]
    }

    /// Adds a record to the bucket of its size.
    pub fn insert(&mut self, r: IdxRecord)
        requires
            old(self).wf(),
            r.size > 0,
        ensures
            final(self).wf(),
            final(self)@ == index_insert(old(self)@, r@),
    {
        let ghost rv = r@;
        let ghost v0 = self@;
        let size = r.size;
        match self.slots.get(&size) {
            Some(ip) => {
                let i = *ip;
                assert(self@[i as int].0 == size);
                assert(bucket_of(v0, size) == Some(i as int)) by {
                    let j = choose|j: int| 0 <= j < v0.len() && v0[j].0 == size;
                    if j != i as int {
                        if j < i as int {
                            assert(v0[j].0 != v0[i as int].0);
                        } else {
                            assert(v0[i as int].0 != v0[j].0);
                        }
                    }
                };
                let ghost b0 = self.buckets@[i as int];
                self.buckets[i].records.push(r);
                assert(self.buckets@ == old(self).buckets@.update(
                    i as int,
                    self.buckets@[i as int],
                ));
                assert(records_view(self.buckets@[i as int].records@) =~= records_view(
                    b0.records@,
                ).push(rv));
                assert(self@ =~= index_insert(v0, rv));
            }
            None => {
                assert(bucket_of(v0, size) == None::<int>) by {
                    if exists|j: int| 0 <= j < v0.len() && v0[j].0 == size {
                        let j = choose|j: int| 0 <= j < v0.len() && v0[j].0 == size;
                        assert(self.buckets@[j].size == size);
                    }
                };
                let pos = self.buckets.len();
                let mut records: Vec<IdxRecord> = Vec::new();
                records.push(r);
                self.buckets.push(Bucket { size, records });
                self.slots.insert(size, pos);
                assert(records_view(seq![r]) =~= seq![rv]);
                assert(self@ =~= index_insert(v0, rv));
            }
        }
        proof {
            assert forall|i: int| 0 <= i < old(self).buckets@.len() implies
                #[trigger] self.buckets@[i].size == old(self).buckets@[i].size by {
                assert(self@[i].0 == v0[i].0);
            }
            assert forall|s: u64| #[trigger] self.slots@.contains_key(s) implies exists|i: int|
                0 <= i < self.buckets@.len() && self.buckets@[i].size == s by {
                if s != size {
                    assert(old(self).slots@.contains_key(s));
                    let i = old(self).slots@[s] as int;
                    assert(self.buckets@[i].size == s);
                } else {
                    let i = self.slots@[s] as int;
                    assert(self.buckets@[i].size == s);
                }
            }
            assert forall|s: u64| (exists|i: int|
                0 <= i < self.buckets@.len() && self.buckets@[i].size == s) implies
                #[trigger] self.slots@.contains_key(s) by {
                let i = choose|i: int| 0 <= i < self.buckets@.len() && self.buckets@[i].size == s;
                if i < old(self).buckets@.len() {
                    assert(old(self).buckets@[i].size == s);
                    assert(old(self).slots@.contains_key(s));
                }
            }
        }
    }

    /// Discards every bucket with fewer than two records.
    pub fn retain_multi(&mut self)
        requires
            old(self).wf(),
        ensures
            final(self).wf(),
            final(self)@ == multi_buckets(old(self)@),
    {
        let ghost v0 = self@;
        let mut rest: Vec<Bucket> = Vec::new();
        std::mem::swap(&mut rest, &mut self.buckets);
        let n = rest.len();
        let mut reversed: Vec<Bucket> = Vec::new();
        while rest.len() > 0
            invariant
                rest@.len() + reversed@.len() == v0.len(),
                forall|k: int| 0 <= k < rest@.len() ==> #[trigger] rest@[k]@ == v0[k],
                forall|k: int|
                    0 <= k < reversed@.len() ==> #[trigger] reversed@[k]@ == v0[v0.len() - 1 - k],
            decreases rest@.len(),
        {
            let b = rest.pop().unwrap();
            reversed.push(b);
        }
        self.slots = HashMap::new();
        assert(self@ =~= multi_buckets(v0.take(0)));
        let mut j: usize = 0;
        while reversed.len() > 0
            invariant
                j + reversed@.len() == v0.len(),
                v0.len() == n,
                forall|k: int|
                    0 <= k < reversed@.len() ==> #[trigger] reversed@[k]@ == v0[v0.len() - 1 - k],
                buckets_wf(v0),
                self@ == multi_buckets(v0.take(j as int)),
                forall|k: int, m: int|
                    0 <= k < self@.len() && j <= m < v0.len() ==> #[trigger] self@[k].0
                        != #[trigger] v0[m].0,
                buckets_wf(self@),
                self.slots_wf(),
            decreases reversed@.len(),
        {
            let b = reversed.pop().unwrap();
            assert(b@ == v0[j as int]);
            assert(v0.take(j as int + 1).drop_last() =~= v0.take(j as int));
            if b.records.len() >= 2 {
                let ghost before = self@;
                let ghost slots0 = self.slots@;
                let ghost buckets0 = self.buckets@;
                let pos = self.buckets.len();
                let size = b.size;
                self.buckets.push(b);
                self.slots.insert(size, pos);
                assert(self@ =~= before.push(v0[j as int]));
                proof {
                    assert forall|k: int| 0 <= k < before.len() implies #[trigger] self@[k].0
                        != v0[j as int].0 by {
                        assert(self@[k] == before[k]);
                    }
                    assert forall|k: int, m: int|
                        0 <= k < self@.len() && j + 1 <= m < v0.len() implies #[trigger] self@[k].0
                            != #[trigger] v0[m].0 by {
                        if k < before.len() {
                            assert(self@[k] == before[k]);
                        }
                    }
                    assert forall|i: int| 0 <= i < before.len() implies
                        #[trigger] self.buckets@[i].size == before[i].0 by {
                        assert(self@[i] == before[i]);
                    }
                    assert forall|s: u64| #[trigger] self.slots@.contains_key(s) implies exists|i: int|
                        0 <= i < self.buckets@.len() && self.buckets@[i].size == s by {
                        if s != size {
                            let i = slots0[s] as int;
                            assert(buckets0[i].size == s);
                            assert(self.buckets@[i].size == s);
                        } else {
                            assert(self.buckets@[pos as int].size == s);
                        }
                    }
                    assert forall|s: u64| (exists|i: int|
                        0 <= i < self.buckets@.len() && self.buckets@[i].size == s) implies
                        #[trigger] self.slots@.contains_key(s) by {
                        let i = choose|i: int|
                            0 <= i < self.buckets@.len() && self.buckets@[i].size == s;
                        if i < before.len() {
                            assert(buckets0[i].size == s);
                        }
                    }
                }
            }
            j += 1;
        }
        assert(v0.take(v0.len() as int) =~= v0);
    }

    /// Exchanges the records of bucket `b` with `records`, which all have
    /// the bucket's size.
    pub fn swap_records(&mut self, b: usize, records: &mut Vec<IdxRecord>)
        requires
            old(self).wf(),
            b < old(self)@.len(),
            forall|k: int| 0 <= k < old(records)@.len() ==> (#[trigger] old(records)@[k]).size
                == old(self)@[b as int].0,
        ensures
            final(self).wf(),
            final(self)@ == old(self)@.update(b as int, (old(self)@[b as int].0, records_view(old(records)@))),
            records_view(final(records)@) == old(self)@[b as int].1,
    {
        let ghost v0 = self@;
        let ghost r0 = records@;
        std::mem::swap(records, &mut self.buckets[b].records);
        assert(self.buckets@ == old(self).buckets@.update(b as int, self.buckets@[b as int]));
        assert(self@ =~= v0.update(b as int, (v0[b as int].0, records_view(r0))));
        proof {
            assert forall|i: int| 0 <= i < self.buckets@.len() implies
                #[trigger] self.buckets@[i].size == old(self).buckets@[i].size by {
                assert(self@[i].0 == v0[i].0);
            }
            let v = self@;
            assert forall|i: int, k: int|
                0 <= i < v.len() && 0 <= k < v[i].1.len() implies (#[trigger] v[i].1[k]).size
                    == v[i].0 by {
                if i == b as int {
                    assert(v[i].1[k] == r0[k]@);
                } else {
                    assert(v[i] == v0[i]);
                }
            }
            assert forall|s: u64| #[trigger] self.slots@.contains_key(s) implies exists|i: int|
                0 <= i < self.buckets@.len() && self.buckets@[i].size == s by {
                let i = self.slots@[s] as int;
                assert(old(self).buckets@[i].size == s);
                assert(self.buckets@[i].size == s);
            }
            assert forall|s: u64| (exists|i: int|
                0 <= i < self.buckets@.len() && self.buckets@[i].size == s) implies
                #[trigger] self.slots@.contains_key(s) by {
                let i = choose|i: int| 0 <= i < self.buckets@.len() && self.buckets@[i].size == s;
                assert(old(self).buckets@[i].size == s);
            }
        }
    }

    /// The position of the bucket of `size`, if there is one.
    pub fn find_bucket(&self, size: u64) -> (r: Option<usize>)
        requires
            self.wf(),
        ensures
            match r {
                Some(b) => b < self@.len() && self@[b as int].0 == size,
                None => forall|b: int| 0 <= b < self@.len() ==> #[trigger] self@[b].0 != size,
            },
    {
        match self.slots.get(&size) {
            Some(b) => Some(*b),
            None => {
                assert forall|b: int| 0 <= b < self@.len() implies #[trigger] self@[b].0 != size by {
                    if self@[b].0 == size {
                        assert(self.buckets@[b].size == size);
                    }
                }
                None
            },
        }
    }

    /// Number of records in bucket `b`.
    pub fn bucket_len(&self, b: usize) -> (r: usize)
        requires
            b < self@.len(),
        ensures
            r == self@[b as int].1.len(),
    {
        self.buckets[b].records.len()
    }

    /// Record `j` of bucket `b`.
    pub fn record(&self, b: usize, j: usize) -> (r: &IdxRecord)
        requires
            b < self@.len(),
            j < self@[b as int].1.len(),
        ensures
            r@ == self@[b as int].1[j as int],
    {
        &self.buckets[b].records[j]
    }

    /// Sets both digests of record `j` of bucket `b`.
    pub fn set_hashes(&mut self, b: usize, j: usize, blake3: Option<Digest>, sha2: Option<Digest>)
        requires
            old(self).wf(),
            b < old(self)@.len(),
            j < old(self)@[b as int].1.len(),
        ensures
            final(self).wf(),
            final(self)@ == old(self)@.update(
                b as int,
                (
                    old(self)@[b as int].0,
                    old(self)@[b as int].1.update(
                        j as int,
                        with_digests(old(self)@[b as int].1[j as int], blake3, sha2),
                    ),
                ),
            ),
    {
        let ghost v0 = self@;
        self.buckets[b].records[j].blake3 = blake3;
        self.buckets[b].records[j].sha2 = sha2;
        assert(records_view(self.buckets@[b as int].records@) =~= v0[b as int].1.update(
            j as int,
            with_digests(v0[b as int].1[j as int], blake3, sha2),
        ));
        assert(self@ =~= v0.update(
            b as int,
            (v0[b as int].0, v0[b as int].1.update(j as int, with_digests(v0[b as int].1[j as int], blake3, sha2))),
        ));
        proof {
            assert forall|i: int| 0 <= i < self.buckets@.len() implies
                #[trigger] self.buckets@[i].size == old(self).buckets@[i].size by {
                assert(self@[i].0 == v0[i].0);
            }
            let v = self@;
            assert forall|i: int, k: int|
                0 <= i < v.len() && 0 <= k < v[i].1.len() implies (#[trigger] v[i].1[k]).size
                    == v[i].0 by {
                if i != b as int || k != j as int {
                    assert(v[i].1[k] == v0[i].1[k]);
                }
            }
            assert(buckets_wf(v));
            assert(self.buckets@.len() == old(self).buckets@.len());
            assert forall|s: u64| #[trigger] self.slots@.contains_key(s) implies exists|i: int|
                0 <= i < self.buckets@.len() && self.buckets@[i].size == s by {
                let i = self.slots@[s] as int;
                assert(old(self).buckets@[i].size == s);
                assert(self.buckets@[i].size == s);
            }
            assert forall|s: u64| (exists|i: int|
                0 <= i < self.buckets@.len() && self.buckets@[i].size == s) implies
                #[trigger] self.slots@.contains_key(s) by {
                let i = choose|i: int| 0 <= i < self.buckets@.len() && self.buckets@[i].size == s;
                assert(old(self).buckets@[i].size == s);
            }
        }
    }
}

} // verus!
