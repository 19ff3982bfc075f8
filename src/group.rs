use vstd::prelude::*;
use vstd::multiset::Multiset;
use crate::record::{IdxRecord, RecordView, opt_digest_eq};
use crate::index::{Index, Bucket, BucketView, records_view, buckets_wf};

verus! {

/// The records of `s`, in order, whose content equals (`keep`) or differs
/// from (`!keep`) that of `r`.
pub open spec fn select(s: Seq<RecordView>, r: RecordView, keep: bool) -> Seq<RecordView>
    decreases s.len(),
{
    if s.len() == 0 {
        seq![]
    } else if s.last().same_content(r) == keep {
        select(s.drop_last(), r, keep).push(s.last())
    } else {
        select(s.drop_last(), r, keep)
    }
}

pub proof fn lemma_select_len(s: Seq<RecordView>, r: RecordView, keep: bool)
    ensures
        select(s, r, keep).len() <= s.len(),
    decreases s.len(),
{
    if s.len() > 0 {
        lemma_select_len(s.drop_last(), r, keep);
    }
}

/// The class that the last record of a bucket starts: that record, then
/// every other record of the same content.
pub open spec fn class_of(s: Seq<RecordView>) -> Seq<RecordView>
    recommends
        s.len() > 0,
{
    seq![s.last()] + select(s.drop_last(), s.last(), true)
}

/// What stays in a bucket once the class of its last record is taken out.
pub open spec fn rest_of(s: Seq<RecordView>) -> Seq<RecordView>
    recommends
        s.len() > 0,
{
    select(s.drop_last(), s.last(), false)
}

#[via_fn]
proof fn classes_decreases(s: Seq<RecordView>) {
    if s.len() > 1 {
        lemma_select_len(s.drop_last(), s.last(), false);
    }
}

/// The equivalence classes of two or more members that repeated grouping
/// takes out of a bucket, in the order in which they are formed.
pub open spec fn classes(s: Seq<RecordView>) -> Seq<Seq<RecordView>>
    decreases s.len(),
    via classes_decreases
{
    if s.len() <= 1 {
        seq![]
    } else if class_of(s).len() >= 2 {
        seq![class_of(s)] + classes(rest_of(s))
    } else {
        classes(rest_of(s))
    }
}

/// The classes of all buckets, bucket after bucket.
pub open spec fn all_classes(v: Seq<BucketView>) -> Seq<Seq<RecordView>>
    decreases v.len(),
{
    if v.len() == 0 {
        seq![]
    } else {
        all_classes(v.drop_last()) + classes(v.last().1)
    }
}

pub open spec fn groups_view(g: Seq<Vec<IdxRecord>>) -> Seq<Seq<RecordView>> {
    g.map_values(|v: Vec<IdxRecord>| records_view(v@))
}

/// Whether two records have equal size and equal digests.
pub fn same_content(a: &IdxRecord, b: &IdxRecord) -> (r: bool)
    ensures
        r == a@.same_content(b@),
{
    a.size == b.size && opt_digest_eq(&a.blake3, &b.blake3) && opt_digest_eq(&a.sha2, &b.sha2)
}

/// Takes the last record of `subindex` and every record of the same
/// content out of it; returns them, the last record first.
pub fn subindex_linkable(subindex: &mut Vec<IdxRecord>) -> (r: Vec<IdxRecord>)
    requires
        old(subindex)@.len() >= 1,
    ensures
        records_view(r@) == class_of(records_view(old(subindex)@)),
        records_view(final(subindex)@) == rest_of(records_view(old(subindex)@)),
{
    let ghost s = records_view(subindex@);
    let mut linkindex: Vec<IdxRecord> = Vec::new();
    let first = subindex.pop().unwrap();
    let ghost rep = first@;
    let ghost rest = s.drop_last();
    assert(records_view(subindex@) =~= rest);
    linkindex.push(first);
    let mut i: usize = 0;
    let ghost mut k: int = 0;
    assert(records_view(linkindex@) =~= seq![rep] + select(rest.take(0), rep, true));
    assert(records_view(subindex@) =~= select(rest.take(0), rep, false) + rest.skip(0));
    while i < subindex.len()
        invariant
            0 <= k <= rest.len(),
            i == select(rest.take(k), rep, false).len(),
            linkindex@.len() >= 1,
            linkindex@[0]@ == rep,
            records_view(linkindex@) == seq![rep] + select(rest.take(k), rep, true),
            records_view(subindex@) == select(rest.take(k), rep, false) + rest.skip(k),
        decreases rest.len() - k,
    {
        let ghost sub0 = records_view(subindex@);
        let ghost lnk0 = records_view(linkindex@);
        let ghost raw0 = subindex@;
        assert(rest.take(k + 1).drop_last() =~= rest.take(k));
        assert(sub0[i as int] == rest[k]);
        if same_content(&linkindex[0], &subindex[i]) {
            let x = subindex.remove(i);
            linkindex.push(x);
            assert(subindex@ == raw0.remove(i as int));
            assert(records_view(subindex@) =~= sub0.remove(i as int));
            assert(select(rest.take(k + 1), rep, false) == select(rest.take(k), rep, false));
            assert(records_view(linkindex@) =~= lnk0.push(rest[k]));
            assert(records_view(linkindex@) =~= seq![rep] + select(rest.take(k + 1), rep, true));
            assert(records_view(subindex@) =~= select(rest.take(k + 1), rep, false) + rest.skip(k + 1));
        } else {
            i += 1;
            assert(records_view(subindex@) =~= select(rest.take(k + 1), rep, false) + rest.skip(k + 1));
        }
        proof {
            k = k + 1;
        }
    }
    assert(k == rest.len()) by {
        lemma_select_len(rest.take(k), rep, false);
    };
    assert(rest.take(k) =~= rest);
    assert(records_view(subindex@) =~= select(rest, rep, false));
    linkindex
}

/// What repeated grouping leaves of a bucket: at most one record.
pub open spec fn leftover(s: Seq<RecordView>) -> Seq<RecordView>
    decreases s.len(),
    via leftover_decreases
{
    if s.len() <= 1 {
        s
    } else {
        leftover(rest_of(s))
    }
}

#[via_fn]
proof fn leftover_decreases(s: Seq<RecordView>) {
    if s.len() > 1 {
        lemma_select_len(s.drop_last(), s.last(), false);
    }
}

/// The index after grouping: every bucket keeps its size and place, and
/// holds what grouping left of it.
pub open spec fn leftover_index(v: Seq<BucketView>) -> Seq<BucketView> {
    v.map_values(|b: BucketView| (b.0, leftover(b.1)))
}

/// Splits every bucket of the index into its equivalence classes and
/// returns the classes of two or more members, until fewer than two
/// records remain in each bucket; those stay in the index. In each class
/// the first record is the one the others are linked to.
pub fn mainloop(index: &mut Index) -> (r: Vec<Vec<IdxRecord>>)
    requires
        old(index).wf(),
    ensures
        final(index).wf(),
        final(index)@ == leftover_index(old(index)@),
        groups_view(r@) == all_classes(old(index)@),
{
    let ghost v0 = index@;
    let mut groups: Vec<Vec<IdxRecord>> = Vec::new();
    let nb = index.bucket_count();
    let mut i: usize = 0;
    assert(groups_view(groups@) =~= all_classes(v0.take(0)));
    while i < nb
        invariant
            0 <= i <= nb,
            nb == v0.len(),
            buckets_wf(v0),
            index.wf(),
            index@.len() == v0.len(),
            forall|k: int| 0 <= k < i ==> #[trigger] index@[k] == (v0[k].0, leftover(v0[k].1)),
            forall|k: int| i <= k < v0.len() ==> #[trigger] index@[k] == v0[k],
            groups_view(groups@) == all_classes(v0.take(i as int)),
        decreases nb - i,
    {
        let ghost vi = index@;
        let mut subindex: Vec<IdxRecord> = Vec::new();
        index.swap_records(i, &mut subindex);
        assert(v0.take(i as int + 1).drop_last() =~= v0.take(i as int));
        assert(records_view(subindex@) == v0[i as int].1);
        while subindex.len() > 1
            invariant
                groups_view(groups@) + classes(records_view(subindex@)) == all_classes(
                    v0.take(i as int + 1),
                ),
                leftover(records_view(subindex@)) == leftover(v0[i as int].1),
            decreases subindex@.len(),
        {
            let ghost g0 = groups_view(groups@);
            let ghost sv = records_view(subindex@);
            let linkindex = subindex_linkable(&mut subindex);
            proof {
                lemma_select_len(sv.drop_last(), sv.last(), false);
            }
            if linkindex.len() > 1 {
                groups.push(linkindex);
                assert(groups_view(groups@) =~= g0.push(class_of(sv)));
                assert(g0 + classes(sv) =~= groups_view(groups@) + classes(rest_of(sv)));
            }
        }
        assert(classes(records_view(subindex@)) =~= seq![]);
        assert(groups_view(groups@) =~= all_classes(v0.take(i as int + 1)));
        proof {
            lemma_leftover_members(v0[i as int].1);
            assert forall|k: int| 0 <= k < subindex@.len() implies (#[trigger] subindex@[k]).size
                == index@[i as int].0 by {
                assert(records_view(subindex@)[k] == subindex@[k]@);
                assert(v0[i as int].1.contains(records_view(subindex@)[k]));
                let m = choose|m: int| 0 <= m < v0[i as int].1.len() && v0[i as int].1[m] == records_view(subindex@)[k];
                assert(v0[i as int].1[m].size == v0[i as int].0);
            }
        }
        index.swap_records(i, &mut subindex);
        i += 1;
    }
    assert(v0.take(v0.len() as int) =~= v0);
    assert(index@ =~= leftover_index(v0));
    groups
}

/// Grouping leaves at most one record of a bucket, and only one that was
/// in it: what stays is a sub-multiset of the bucket.
pub proof fn lemma_leftover_members(s: Seq<RecordView>)
    ensures
        leftover(s).len() <= 1,
        forall|k: int| 0 <= k < leftover(s).len() ==> s.contains(#[trigger] leftover(s)[k]),
        leftover(s).to_multiset().subset_of(s.to_multiset()),
    decreases s.len(),
{
    if s.len() > 1 {
        let rest = rest_of(s);
        lemma_select_len(s.drop_last(), s.last(), false);
        lemma_leftover_members(rest);
        assert forall|k: int| 0 <= k < leftover(s).len() implies s.contains(#[trigger] leftover(s)[k]) by {
            assert(rest.contains(leftover(rest)[k]));
            let i = choose|i: int| 0 <= i < rest.len() && rest[i] == leftover(rest)[k];
            lemma_select_members(s.drop_last(), s.last(), false, i);
            let i2 = choose|i2: int| 0 <= i2 < s.drop_last().len() && s.drop_last()[i2] == rest[i];
            assert(s[i2] == leftover(s)[k]);
        }
    }
    lemma_single_sub_multiset(leftover(s), s);
}

proof fn lemma_single_sub_multiset(l: Seq<RecordView>, s: Seq<RecordView>)
    requires
        l.len() <= 1,
        forall|k: int| 0 <= k < l.len() ==> s.contains(#[trigger] l[k]),
    ensures
        l.to_multiset().subset_of(s.to_multiset()),
{
    broadcast use vstd::seq_lib::group_to_multiset_ensures;
    if l.len() == 1 {
        assert(s.contains(l[0]));
        assert(l =~= seq![l[0]]);
        assert(l.to_multiset() =~= Multiset::empty().insert(l[0])) by {
            assert(l =~= Seq::<RecordView>::empty().push(l[0]));
        };
    } else {
        assert(l =~= Seq::<RecordView>::empty());
        assert(l.to_multiset() =~= Multiset::empty());
    }
}

proof fn lemma_select_members(s: Seq<RecordView>, r: RecordView, keep: bool, k: int)
    requires
        0 <= k < select(s, r, keep).len(),
    ensures
        exists|i: int| 0 <= i < s.len() && s[i] == #[trigger] select(s, r, keep)[k],
    decreases s.len(),
{
    lemma_select_len(s.drop_last(), r, keep);
    let t = select(s.drop_last(), r, keep);
    if k < t.len() {
        lemma_select_members(s.drop_last(), r, keep, k);
        let i = choose|i: int| 0 <= i < s.drop_last().len() && s.drop_last()[i] == t[k];
        assert(s[i] == select(s, r, keep)[k]);
    } else {
        assert(s[s.len() - 1] == select(s, r, keep)[k]);
    }
}

proof fn lemma_class_members(s: Seq<RecordView>, c: int, k: int)
    requires
        0 <= c < classes(s).len(),
        0 <= k < classes(s)[c].len(),
    ensures
        exists|i: int| 0 <= i < s.len() && s[i] == #[trigger] classes(s)[c][k],
    decreases s.len(),
{
    lemma_select_len(s.drop_last(), s.last(), false);
    let rest = rest_of(s);
    if class_of(s).len() >= 2 && c == 0 {
        assert(classes(s)[0] == class_of(s));
        if k == 0 {
            assert(s[s.len() - 1] == classes(s)[c][k]);
        } else {
            lemma_select_members(s.drop_last(), s.last(), true, k - 1);
            let i = choose|i: int|
                0 <= i < s.drop_last().len() && s.drop_last()[i] == select(s.drop_last(), s.last(), true)[k - 1];
            assert(s[i] == classes(s)[c][k]);
        }
    } else {
        let c2 = if class_of(s).len() >= 2 { c - 1 } else { c };
        assert(classes(s)[c] == classes(rest)[c2]);
        lemma_class_members(rest, c2, k);
        let i = choose|i: int| 0 <= i < rest.len() && rest[i] == classes(rest)[c2][k];
        lemma_select_members(s.drop_last(), s.last(), false, i);
        let i2 = choose|i2: int| 0 <= i2 < s.drop_last().len() && s.drop_last()[i2] == rest[i];
        assert(s[i2] == classes(s)[c][k]);
    }
}

/// Every member of every class is a record of the index, so it has the
/// size of its bucket and, as the index holds no empty file, is not
/// empty: empty files are never linked.
pub proof fn lemma_class_members_from_index(v: Seq<BucketView>, c: int, k: int)
    requires
        buckets_wf(v),
        0 <= c < all_classes(v).len(),
        0 <= k < all_classes(v)[c].len(),
    ensures
        exists|b: int, i: int|
            0 <= b < v.len() && 0 <= i < v[b].1.len() && v[b].1[i] == #[trigger] all_classes(v)[c][k],
        all_classes(v)[c][k].size > 0,
    decreases v.len(),
{
    let front = all_classes(v.drop_last());
    let b = v.len() - 1;
    assert(buckets_wf(v.drop_last())) by {
        assert forall|i: int, k2: int|
            0 <= i < v.drop_last().len() && 0 <= k2 < v.drop_last()[i].1.len() implies
            (#[trigger] v.drop_last()[i].1[k2]).size == v.drop_last()[i].0 by {
            assert(v.drop_last()[i] == v[i]);
        }
    };
    if c < front.len() {
        lemma_class_members_from_index(v.drop_last(), c, k);
        let (b2, i) = choose|b2: int, i: int|
            0 <= b2 < v.drop_last().len() && 0 <= i < v.drop_last()[b2].1.len()
                && v.drop_last()[b2].1[i] == front[c][k];
        assert(v[b2].1[i] == all_classes(v)[c][k]);
    } else {
        let c2 = c - front.len();
        assert(all_classes(v)[c] == classes(v[b].1)[c2]);
        lemma_class_members(v[b].1, c2, k);
        let i = choose|i: int| 0 <= i < v[b].1.len() && v[b].1[i] == classes(v[b].1)[c2][k];
        assert(v[b].1[i] == all_classes(v)[c][k]);
    }
    let (b3, i3) = choose|b3: int, i3: int|
        0 <= b3 < v.len() && 0 <= i3 < v[b3].1.len() && v[b3].1[i3] == all_classes(v)[c][k];
    assert(v[b3].1[i3].size == v[b3].0);
}

} // verus!
