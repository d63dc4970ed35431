//! What a version knows of an SST.
use crate::key_range::KeyRange;
use crate::seqs::Sortable;
use vstd::prelude::*;

#[allow(unused_imports)]
use crate::key_range::{lemma_range_asymmetric, lemma_range_weak, KeyRangeView};
#[allow(unused_imports)]
use crate::seqs::{lemma_total_monotone, lemma_total_take, orders, total, views};

verus! {

/// Identifies the object in the object store that holds an SST.
pub type HummockSstableObjectId = u64;

/// Identifies an SST. After a split several SSTs share one object.
pub type HummockSstableId = u64;

/// The filter that an SST carries.
#[derive(Debug, Clone, Copy, PartialEq, Eq, Structural)]
pub enum BloomFilterType {
    Unspecified,
    Sstable,
    Blocked,
}

/// What an SST's description stands for.
#[verifier::ext_equal]
pub struct SstView {
    pub object_id: u64,
    pub sst_id: u64,
    pub key_range: KeyRangeView,
    pub file_size: u64,
    pub table_ids: Seq<u32>,
    pub meta_offset: u64,
    pub stale_key_count: u64,
    pub total_key_count: u64,
    pub min_epoch: u64,
    pub max_epoch: u64,
    pub uncompressed_file_size: u64,
    pub range_tombstone_count: u64,
    pub bloom_filter_kind: BloomFilterType,
    pub estimated_sst_size: u64,
}

/// The description of an SST.
#[derive(Debug, PartialEq, Eq)]
pub struct SstableInfo {
    pub object_id: u64,
    pub sst_id: u64,
    pub key_range: KeyRange,
    pub file_size: u64,
    pub table_ids: Vec<u32>,
    pub meta_offset: u64,
    pub stale_key_count: u64,
    pub total_key_count: u64,
    pub min_epoch: u64,
    pub max_epoch: u64,
    pub uncompressed_file_size: u64,
    pub range_tombstone_count: u64,
    pub bloom_filter_kind: BloomFilterType,
    pub estimated_sst_size: u64,
}

impl View for SstableInfo {
    type V = SstView;

    open spec fn view(&self) -> SstView {
        SstView {
            object_id: self.object_id,
            sst_id: self.sst_id,
            key_range: self.key_range@,
            file_size: self.file_size,
            table_ids: self.table_ids@,
            meta_offset: self.meta_offset,
            stale_key_count: self.stale_key_count,
            total_key_count: self.total_key_count,
            min_epoch: self.min_epoch,
            max_epoch: self.max_epoch,
            uncompressed_file_size: self.uncompressed_file_size,
            range_tombstone_count: self.range_tombstone_count,
            bloom_filter_kind: self.bloom_filter_kind,
            estimated_sst_size: self.estimated_sst_size,
        }
    }
}

/// A copy of a list of table ids.
pub fn clone_ids(ids: &Vec<u32>) -> (r: Vec<u32>)
    ensures
        r@ == ids@,
{
    let r = ids.clone();
    assert(r@ =~= ids@);
    r
}

impl Clone for SstableInfo {
    fn clone(&self) -> (r: SstableInfo)
        ensures
            r@ == self@,
    {
        SstableInfo {
            object_id: self.object_id,
            sst_id: self.sst_id,
            key_range: self.key_range.clone(),
            file_size: self.file_size,
            table_ids: clone_ids(&self.table_ids),
            meta_offset: self.meta_offset,
            stale_key_count: self.stale_key_count,
            total_key_count: self.total_key_count,
            min_epoch: self.min_epoch,
            max_epoch: self.max_epoch,
            uncompressed_file_size: self.uncompressed_file_size,
            range_tombstone_count: self.range_tombstone_count,
            bloom_filter_kind: self.bloom_filter_kind,
            estimated_sst_size: self.estimated_sst_size,
        }
    }
}

impl SstView {
    /// The description that says nothing.
    pub open spec fn blank() -> SstView {
        SstView {
            object_id: 0,
            sst_id: 0,
            key_range: KeyRangeView::all(),
            file_size: 0,
            table_ids: Seq::empty(),
            meta_offset: 0,
            stale_key_count: 0,
            total_key_count: 0,
            min_epoch: 0,
            max_epoch: 0,
            uncompressed_file_size: 0,
            range_tombstone_count: 0,
            bloom_filter_kind: BloomFilterType::Unspecified,
            estimated_sst_size: 0,
        }
    }
}

impl Default for SstableInfo {
    fn default() -> (r: SstableInfo)
        ensures
            r@ == SstView::blank(),
    {
        let table_ids: Vec<u32> = Vec::new();
        assert(table_ids@ =~= Seq::empty());
        SstableInfo {
            object_id: 0,
            sst_id: 0,
            key_range: KeyRange::default(),
            file_size: 0,
            table_ids,
            meta_offset: 0,
            stale_key_count: 0,
            total_key_count: 0,
            min_epoch: 0,
            max_epoch: 0,
            uncompressed_file_size: 0,
            range_tombstone_count: 0,
            bloom_filter_kind: BloomFilterType::Unspecified,
            estimated_sst_size: 0,
        }
    }
}

/// SSTs are ordered by their key ranges.
impl Sortable for SstableInfo {
    open spec fn before() -> spec_fn(SstView, SstView) -> bool {
        |a: SstView, b: SstView| a.key_range.less(b.key_range)
    }

    fn is_before(&self, other: &Self) -> (r: bool) {
        self.key_range.less(&other.key_range)
    }
}

/// Key ranges put SSTs in an order.
pub proof fn sst_order_is_an_order()
    ensures
        orders(SstableInfo::before()),
{
    let before = SstableInfo::before();
    assert forall|a: SstView, b: SstView| #[trigger] before(a, b) implies !before(b, a) by {
        lemma_range_asymmetric(a.key_range, b.key_range);
    }
    assert forall|a: SstView, b: SstView, c: SstView| #[trigger]
        before(a, b) && !#[trigger] before(c, b) implies before(a, c) by {
        lemma_range_weak(a.key_range, b.key_range, c.key_range);
    }
}

/// The size that an SST is counted with.
pub open spec fn size() -> spec_fn(SstView) -> int {
    |s: SstView| s.estimated_sst_size as int
}

/// The size that an SST is counted with before compression.
pub open spec fn raw_size() -> spec_fn(SstView) -> int {
    |s: SstView| s.uncompressed_file_size as int
}

/// The sum of the sizes of the SSTs.
pub fn total_size(ssts: &Vec<SstableInfo>) -> (r: u64)
    requires
        total(views(ssts@), size()) <= u64::MAX,
    ensures
        r == total(views(ssts@), size()),
{
    let ghost all = views(ssts@);
    let mut r: u64 = 0;
    let mut i: usize = 0;
    while i < ssts.len()
        invariant
            i <= ssts.len(),
            all == views(ssts@),
            total(all, size()) <= u64::MAX,
            r == total(all.take(i as int), size()),
        decreases ssts.len() - i,
    {
        proof {
            lemma_total_take(all, i as int, size());
            lemma_total_monotone(all, i + 1, size());
        }
        r = r + ssts[i].estimated_sst_size;
        i = i + 1;
    }
    assert(all.take(i as int) =~= all);
    r
}

/// The sum of the sizes of the SSTs before compression.
pub fn total_raw_size(ssts: &Vec<SstableInfo>) -> (r: u64)
    requires
        total(views(ssts@), raw_size()) <= u64::MAX,
    ensures
        r == total(views(ssts@), raw_size()),
{
    let ghost all = views(ssts@);
    let mut r: u64 = 0;
    let mut i: usize = 0;
    while i < ssts.len()
        invariant
            i <= ssts.len(),
            all == views(ssts@),
            total(all, raw_size()) <= u64::MAX,
            r == total(all.take(i as int), raw_size()),
        decreases ssts.len() - i,
    {
        proof {
            lemma_total_take(all, i as int, raw_size());
            lemma_total_monotone(all, i + 1, raw_size());
        }
        r = r + ssts[i].uncompressed_file_size;
        i = i + 1;
    }
    assert(all.take(i as int) =~= all);
    r
}

/// A copy of a part of a list of SSTs.
pub fn clone_range(ssts: &Vec<SstableInfo>, from: usize, to: usize) -> (r: Vec<SstableInfo>)
    requires
        from <= to <= ssts@.len(),
    ensures
        views(r@) == views(ssts@).subrange(from as int, to as int),
{
    let mut r: Vec<SstableInfo> = Vec::new();
    let mut i: usize = from;
    while i < to
        invariant
            from <= i <= to <= ssts@.len(),
            views(r@) == views(ssts@).subrange(from as int, i as int),
        decreases to - i,
    {
        let sst = ssts[i].clone();
        let ghost prior = r@;
        r.push(sst);
        assert(views(r@) =~= views(prior).push(sst@));
        assert(views(ssts@).subrange(from as int, i + 1) =~= views(ssts@).subrange(
            from as int,
            i as int,
        ).push(ssts@[i as int]@));
        i = i + 1;
    }
    r
}

/// A copy of a list of SSTs.
pub fn clone_ssts(ssts: &Vec<SstableInfo>) -> (r: Vec<SstableInfo>)
    ensures
        views(r@) == views(ssts@),
{
    let r = clone_range(ssts, 0, ssts.len());
    assert(views(ssts@).subrange(0, ssts@.len() as int) =~= views(ssts@));
    r
}

/// Whether each SST's range can be held against the start of the one behind it, as far as the
/// SSTs do not overlap.
pub open spec fn concat_checkable(ssts: Seq<SstView>) -> bool {
    forall|i: int|
        1 <= i < ssts.len() && concat_until(ssts, i) ==> #[trigger] next_comparable(ssts, i)
}

/// Whether the SST in front of the one at `i` can be held against it.
pub open spec fn next_comparable(ssts: Seq<SstView>, i: int) -> bool {
    ssts[i - 1].key_range.right_comparable(ssts[i].key_range.left)
}

/// Whether each of the first `n` SSTs ends before the one behind it starts.
pub open spec fn concat_until(ssts: Seq<SstView>, n: int) -> bool {
    forall|j: int| 1 <= j < n ==> ends_before_next(ssts, j)
}

/// Whether the SST in front of the one at `i` can be held against it and ends before it starts.
pub open spec fn ends_before_next(ssts: Seq<SstView>, i: int) -> bool {
    &&& next_comparable(ssts, i)
    &&& ssts[i - 1].key_range.ends_before(ssts[i].key_range.left)
}

/// Whether each SST ends before the one behind it starts.
pub open spec fn concatable(ssts: Seq<SstView>) -> bool {
    concat_until(ssts, ssts.len() as int)
}

/// Whether each SST ends before the one behind it starts.
pub fn can_concat(ssts: &Vec<SstableInfo>) -> (r: bool)
    requires
        concat_checkable(views(ssts@)),
    ensures
        r == concatable(views(ssts@)),
{
    let ghost all = views(ssts@);
    let mut i: usize = 1;
    while i < ssts.len()
        invariant
            1 <= i,
            all == views(ssts@),
            i <= ssts.len() || ssts.len() == 0,
            concat_checkable(all),
            concat_until(all, i as int),
        decreases ssts.len() - i,
    {
        assert(next_comparable(all, i as int));
        if !ssts[i - 1].key_range.ends_before(&ssts[i].key_range.left) {
            assert(!ends_before_next(all, i as int));
            return false;
        }
        assert forall|j: int| 1 <= j < i + 1 implies ends_before_next(all, j) by {
            if j < i {
                assert(concat_until(all, i as int));
            }
        }
        i = i + 1;
    }
    true
}

} // verus!
