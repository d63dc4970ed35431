//! Table watermarks: below which keys a table is not read any more, by virtual node.
use crate::buf::{bytes_as_slice, bytes_clone};
use bytes::Bytes;
use std::collections::{BTreeMap, HashSet};
use vstd::prelude::*;

#[allow(unused_imports)]
use crate::buf::contents;
#[allow(unused_imports)]
use crate::seqs::{lemma_views_push, views};

verus! {

/// The direction in which a watermark moves.
#[derive(Debug, Clone, Copy, PartialEq, Eq, Structural)]
pub enum WatermarkDirection {
    Ascending,
    Descending,
}

/// The virtual nodes of a watermark, one bit each.
#[derive(Debug, Default, PartialEq, Eq)]
pub struct Bitmap {
    pub bits: Vec<bool>,
}

impl View for Bitmap {
    type V = Seq<bool>;

    open spec fn view(&self) -> Seq<bool> {
        self.bits@
    }
}

/// A watermark and the virtual nodes that it is for.
#[derive(Debug, PartialEq, Eq)]
pub struct VnodeWatermark {
    pub vnode_bitmap: Bitmap,
    pub watermark: Bytes,
}

/// What a watermark stands for.
#[verifier::ext_equal]
pub struct VnodeWatermarkView {
    pub vnodes: Seq<bool>,
    pub watermark: Seq<u8>,
}

impl View for VnodeWatermark {
    type V = VnodeWatermarkView;

    open spec fn view(&self) -> VnodeWatermarkView {
        VnodeWatermarkView { vnodes: self.vnode_bitmap@, watermark: contents(self.watermark) }
    }
}

/// The watermarks of one epoch.
#[derive(Debug, PartialEq, Eq)]
pub struct EpochWatermarks {
    pub epoch: u64,
    pub vnode_watermarks: Vec<VnodeWatermark>,
}

/// What the watermarks of an epoch stand for.
#[verifier::ext_equal]
pub struct EpochWatermarksView {
    pub epoch: u64,
    pub vnode_watermarks: Seq<VnodeWatermarkView>,
}

impl View for EpochWatermarks {
    type V = EpochWatermarksView;

    open spec fn view(&self) -> EpochWatermarksView {
        EpochWatermarksView {
            epoch: self.epoch,
            vnode_watermarks: views(self.vnode_watermarks@),
        }
    }
}

/// The watermarks of a table, oldest epoch first.
#[derive(Debug, PartialEq, Eq)]
pub struct TableWatermarks {
    pub watermarks: Vec<EpochWatermarks>,
    pub direction: WatermarkDirection,
}

/// What the watermarks of a table stand for.
#[verifier::ext_equal]
pub struct TableWatermarksView {
    pub watermarks: Seq<EpochWatermarksView>,
    pub direction: WatermarkDirection,
}

impl View for TableWatermarks {
    type V = TableWatermarksView;

    open spec fn view(&self) -> TableWatermarksView {
        TableWatermarksView { watermarks: views(self.watermarks@), direction: self.direction }
    }
}

/// The watermark of each virtual node of a table, for reading.
#[derive(Debug, PartialEq, Eq)]
pub struct ReadTableWatermark {
    pub direction: WatermarkDirection,
    pub vnode_watermarks: BTreeMap<u16, Bytes>,
}

/// What the watermarks for reading stand for.
#[verifier::ext_equal]
pub struct ReadTableWatermarkView {
    pub direction: WatermarkDirection,
    pub vnode_watermarks: Map<u16, Seq<u8>>,
}

/// The contents of the byte strings of a map.
pub open spec fn map_contents(m: Map<u16, Bytes>) -> Map<u16, Seq<u8>> {
    Map::new(|k: u16| m.dom().contains(k), |k: u16| contents(m[k]))
}

impl View for ReadTableWatermark {
    type V = ReadTableWatermarkView;

    open spec fn view(&self) -> ReadTableWatermarkView {
        ReadTableWatermarkView {
            direction: self.direction,
            vnode_watermarks: map_contents(self.vnode_watermarks@),
        }
    }
}

impl Clone for Bitmap {
    fn clone(&self) -> (r: Bitmap)
        ensures
            r@ == self@,
    {
        let bits = self.bits.clone();
        assert(bits@ =~= self.bits@);
        Bitmap { bits }
    }
}

impl Clone for VnodeWatermark {
    fn clone(&self) -> (r: VnodeWatermark)
        ensures
            r@ == self@,
    {
        VnodeWatermark {
            vnode_bitmap: self.vnode_bitmap.clone(),
            watermark: bytes_clone(&self.watermark),
        }
    }
}

/// A copy of a list of watermarks.
pub fn clone_vnode_watermarks(list: &Vec<VnodeWatermark>) -> (r: Vec<VnodeWatermark>)
    ensures
        views(r@) == views(list@),
{
    let mut r: Vec<VnodeWatermark> = Vec::new();
    let mut i: usize = 0;
    while i < list.len()
        invariant
            i <= list.len(),
            views(r@) == views(list@).take(i as int),
        decreases list.len() - i,
    {
        let w = list[i].clone();
        proof {
            lemma_views_push(r@, w);
            assert(views(list@).take(i + 1) =~= views(list@).take(i as int).push(
                list@[i as int]@,
            ));
        }
        r.push(w);
        i = i + 1;
    }
    assert(views(list@).take(i as int) =~= views(list@));
    r
}

impl Clone for EpochWatermarks {
    fn clone(&self) -> (r: EpochWatermarks)
        ensures
            r@ == self@,
    {
        EpochWatermarks {
            epoch: self.epoch,
            vnode_watermarks: clone_vnode_watermarks(&self.vnode_watermarks),
        }
    }
}

/// A copy of a part of a list of watermarks by epoch.
pub fn clone_epoch_watermarks(list: &Vec<EpochWatermarks>, from: usize) -> (r: Vec<EpochWatermarks>)
    requires
        from <= list@.len(),
    ensures
        views(r@) == views(list@).skip(from as int),
{
    let mut r: Vec<EpochWatermarks> = Vec::new();
    let mut i: usize = from;
    let ghost all = views(list@);
    while i < list.len()
        invariant
            from <= i <= list.len(),
            all == views(list@),
            views(r@) == all.subrange(from as int, i as int),
        decreases list.len() - i,
    {
        let w = list[i].clone();
        proof {
            lemma_views_push(r@, w);
            assert(all.subrange(from as int, i + 1) =~= all.subrange(from as int, i as int).push(
                all[i as int],
            ));
        }
        r.push(w);
        i = i + 1;
    }
    assert(all.subrange(from as int, i as int) =~= all.skip(from as int));
    r
}

impl Clone for TableWatermarks {
    fn clone(&self) -> (r: TableWatermarks)
        ensures
            r@ == self@,
    {
        let watermarks = clone_epoch_watermarks(&self.watermarks, 0);
        assert(views(self.watermarks@).skip(0) =~= views(self.watermarks@));
        TableWatermarks { watermarks, direction: self.direction }
    }
}

impl VnodeWatermark {
    /// The virtual nodes.
    pub fn vnode_bitmap(&self) -> (r: &Bitmap)
        ensures
            r@ == self@.vnodes,
    {
        &self.vnode_bitmap
    }

    /// The watermark.
    pub fn watermark(&self) -> (r: &[u8])
        ensures
            r@ == self@.watermark,
    {
        bytes_as_slice(&self.watermark)
    }
}

/// Whether the epochs are in order.
pub open spec fn epochs_sorted(w: Seq<EpochWatermarksView>) -> bool {
    forall|i: int, j: int|
        0 <= i < j < w.len() ==> (#[trigger] w[i]).epoch <= (#[trigger] w[j]).epoch
}

impl TableWatermarksView {
    /// Whether newer watermarks can follow these: they move in the same direction, there is one,
    /// and it is of a later epoch than all of these.
    pub open spec fn precedes(self, newer: TableWatermarksView) -> bool {
        &&& self.direction == newer.direction
        &&& epochs_sorted(self.watermarks)
        &&& epochs_sorted(newer.watermarks)
        &&& newer.watermarks.len() > 0
        &&& self.watermarks.len() > 0 ==> self.watermarks.last().epoch
            < newer.watermarks[0].epoch
    }

    /// These watermarks with the newer ones behind them.
    pub open spec fn followed_by(self, newer: TableWatermarksView) -> TableWatermarksView {
        TableWatermarksView { watermarks: self.watermarks + newer.watermarks, ..self }
    }

    /// The watermarks with those before the safe epoch gone. What the gone ones say of virtual
    /// nodes of which no later one says anything is kept, as of the safe epoch.
    pub open spec fn cleared(self, safe_epoch: u64) -> TableWatermarksView {
        if self.watermarks.len() == 0 || self.watermarks[0].epoch >= safe_epoch {
            self
        } else {
            let start = first_kept(self.watermarks, safe_epoch);
            let kept = self.watermarks.skip(start);
            let carried = carried_over(self.watermarks.take(start), covered_by_all(kept));
            TableWatermarksView { watermarks: with_carried(kept, carried, safe_epoch), ..self }
        }
    }
}

/// Where the watermarks start that are of the safe epoch or later, up to the last.
pub open spec fn first_kept(w: Seq<EpochWatermarksView>, safe_epoch: u64) -> int
    decreases w.len(),
{
    if w.len() > 0 && w.last().epoch >= safe_epoch {
        first_kept(w.drop_last(), safe_epoch)
    } else {
        w.len() as int
    }
}

/// The kept watermarks with those carried over to the safe epoch.
pub open spec fn with_carried(
    kept: Seq<EpochWatermarksView>,
    carried: Seq<VnodeWatermarkView>,
    safe_epoch: u64,
) -> Seq<EpochWatermarksView> {
    if carried.len() == 0 {
        kept
    } else if kept.len() > 0 && kept[0].epoch == safe_epoch {
        kept.update(
            0,
            EpochWatermarksView {
                vnode_watermarks: kept[0].vnode_watermarks + carried,
                ..kept[0]
            },
        )
    } else {
        seq![EpochWatermarksView { epoch: safe_epoch, vnode_watermarks: carried }] + kept
    }
}

/// The virtual nodes whose bits are set.
pub open spec fn vnodes_in(bits: Seq<bool>) -> Set<usize> {
    Set::new(|v: usize| v < bits.len() && bits[v as int])
}

/// The virtual nodes that a watermark in the list is for.
pub open spec fn covered(w: Seq<VnodeWatermarkView>) -> Set<usize>
    decreases w.len(),
{
    if w.len() == 0 {
        Set::empty()
    } else {
        covered(w.drop_last()).union(vnodes_in(w.last().vnodes))
    }
}

/// The virtual nodes that a watermark of one of the epochs is for.
pub open spec fn covered_by_all(w: Seq<EpochWatermarksView>) -> Set<usize>
    decreases w.len(),
{
    if w.len() == 0 {
        Set::empty()
    } else {
        covered_by_all(w.drop_last()).union(covered(w.last().vnode_watermarks))
    }
}

/// The watermark without the virtual nodes in the set.
pub open spec fn narrowed(w: VnodeWatermarkView, known: Set<usize>) -> VnodeWatermarkView {
    VnodeWatermarkView {
        vnodes: Seq::new(
            w.vnodes.len(),
            |i: int| w.vnodes[i] && !known.contains(i as usize),
        ),
        ..w
    }
}

/// Of each watermark what it says of virtual nodes that neither are in the set nor have a
/// watermark in front of it.
pub open spec fn news(w: Seq<VnodeWatermarkView>, known: Set<usize>) -> Seq<VnodeWatermarkView>
    decreases w.len(),
{
    if w.len() == 0 {
        Seq::empty()
    } else {
        let before = news(w.drop_last(), known);
        let last = narrowed(w.last(), known.union(covered(w.drop_last())));
        if exists|i: int| 0 <= i < last.vnodes.len() && last.vnodes[i] {
            before.push(last)
        } else {
            before
        }
    }
}

/// Of the watermarks of each epoch, from the latest back, what they say of virtual nodes that
/// neither are in the set nor have a watermark at a later one of the epochs.
pub open spec fn carried_over(w: Seq<EpochWatermarksView>, known: Set<usize>) -> Seq<
    VnodeWatermarkView,
>
    decreases w.len(),
{
    if w.len() == 0 {
        Seq::empty()
    } else {
        news(w.last().vnode_watermarks, known) + carried_over(
            w.drop_last(),
            known.union(covered(w.last().vnode_watermarks)),
        )
    }
}

/// Puts the virtual nodes whose bits are set into a set.
fn add_vnodes(known: &mut HashSet<usize>, bits: &Vec<bool>)
    ensures
        final(known)@ == old(known)@.union(vnodes_in(bits@)),
{
    let ghost start = known@;
    let mut i: usize = 0;
    assert(start.union(vnodes_in(bits@.take(0))) =~= start);
    while i < bits.len()
        invariant
            i <= bits.len(),
            known@ == start.union(vnodes_in(bits@.take(i as int))),
        decreases bits.len() - i,
    {
        if bits[i] {
            known.insert(i);
        }
        proof {
            assert forall|v: usize| #[trigger]
                vnodes_in(bits@.take(i + 1)).contains(v) <==> vnodes_in(
                    bits@.take(i as int),
                ).contains(v) || (v == i && bits@[i as int]) by {}
            assert(known@ =~= start.union(vnodes_in(bits@.take(i + 1))));
        }
        i = i + 1;
    }
    assert(bits@.take(i as int) =~= bits@);
}

/// Puts the virtual nodes of all watermarks into a set.
fn add_covered(known: &mut HashSet<usize>, list: &Vec<VnodeWatermark>)
    ensures
        final(known)@ == old(known)@.union(covered(views(list@))),
{
    let ghost start = known@;
    let ghost all = views(list@);
    let mut i: usize = 0;
    assert(start.union(covered(all.take(0))) =~= start);
    while i < list.len()
        invariant
            i <= list.len(),
            all == views(list@),
            known@ == start.union(covered(all.take(i as int))),
        decreases list.len() - i,
    {
        add_vnodes(known, &list[i].vnode_bitmap.bits);
        proof {
            assert(all.take(i + 1).drop_last() =~= all.take(i as int));
            assert(known@ =~= start.union(covered(all.take(i + 1))));
        }
        i = i + 1;
    }
    assert(all.take(i as int) =~= all);
}

/// The watermark without the virtual nodes in the set, and whether any is left.
fn narrow(w: &VnodeWatermark, known: &HashSet<usize>) -> (r: (VnodeWatermark, bool))
    ensures
        r.0@ == narrowed(w@, known@),
        r.1 == exists|i: int| 0 <= i < r.0@.vnodes.len() && r.0@.vnodes[i],
{
    let mut bits: Vec<bool> = Vec::new();
    let mut any = false;
    let mut i: usize = 0;
    let ghost target = narrowed(w@, known@).vnodes;
    while i < w.vnode_bitmap.bits.len()
        invariant
            i <= w.vnode_bitmap.bits.len(),
            target == narrowed(w@, known@).vnodes,
            bits@ == target.take(i as int),
            any == exists|k: int| 0 <= k < i && target[k],
        decreases w.vnode_bitmap.bits.len() - i,
    {
        let bit = w.vnode_bitmap.bits[i] && !known.contains(&i);
        assert(bit == target[i as int]);
        bits.push(bit);
        assert(bits@ =~= target.take(i + 1));
        any = any || bit;
        i = i + 1;
    }
    assert(target.take(i as int) =~= target);
    let r = VnodeWatermark {
        vnode_bitmap: Bitmap { bits },
        watermark: bytes_clone(&w.watermark),
    };
    assert(r@.vnodes =~= target);
    assert(any == exists|k: int| 0 <= k < r@.vnodes.len() && r@.vnodes[k]);
    (r, any)
}

/// Adds to `carried` what the watermarks say of virtual nodes that are not in the set, and adds
/// these to the set.
fn carry_news(
    carried: &mut Vec<VnodeWatermark>,
    known: &mut HashSet<usize>,
    list: &Vec<VnodeWatermark>,
)
    ensures
        views(final(carried)@) == views(old(carried)@) + news(views(list@), old(known)@),
        final(known)@ == old(known)@.union(covered(views(list@))),
{
    let ghost start = known@;
    let ghost first = views(carried@);
    let ghost all = views(list@);
    let mut i: usize = 0;
    assert(start.union(covered(all.take(0))) =~= start);
    assert(first + news(all.take(0), start) =~= first);
    while i < list.len()
        invariant
            i <= list.len(),
            all == views(list@),
            known@ == start.union(covered(all.take(i as int))),
            views(carried@) == first + news(all.take(i as int), start),
        decreases list.len() - i,
    {
        let (w, any) = narrow(&list[i], known);
        proof {
            assert(all.take(i + 1).drop_last() =~= all.take(i as int));
            assert(all.take(i + 1).last() == all[i as int]);
        }
        if any {
            proof {
                lemma_views_push(carried@, w);
                assert((first + news(all.take(i as int), start)).push(w@) =~= first + news(
                    all.take(i + 1),
                    start,
                ));
            }
            carried.push(w);
        }
        add_vnodes(known, &list[i].vnode_bitmap.bits);
        assert(known@ =~= start.union(covered(all.take(i + 1))));
        i = i + 1;
    }
    assert(all.take(i as int) =~= all);
}

impl TableWatermarks {
    /// Adds newer watermarks behind these.
    pub fn apply_new_table_watermarks(&mut self, newly_added_watermarks: &TableWatermarks)
        requires
            old(self)@.precedes(newly_added_watermarks@),
        ensures
            final(self)@ == old(self)@.followed_by(newly_added_watermarks@),
    {
        let ghost start = self.watermarks@;
        let mut newer = clone_epoch_watermarks(&newly_added_watermarks.watermarks, 0);
        let ghost shown = newer@;
        assert(views(newly_added_watermarks.watermarks@).skip(0) =~= views(
            newly_added_watermarks.watermarks@,
        ));
        self.watermarks.append(&mut newer);
        assert(views(self.watermarks@) =~= views(start) + views(shown));
    }

    /// Drops the watermarks before the safe epoch and carries over to it what they alone say.
    pub fn clear_stale_epoch_watermark(&mut self, safe_epoch: u64)
        ensures
            final(self)@ == old(self)@.cleared(safe_epoch),
    {
        if self.watermarks.len() == 0 || self.watermarks[0].epoch >= safe_epoch {
            return ;
        }
        let ghost all = views(self.watermarks@);
        let mut known: HashSet<usize> = HashSet::new();
        let mut start: usize = self.watermarks.len();
        assert(all.take(start as int) =~= all);
        assert(covered_by_all(all.skip(start as int)) =~= Set::empty());
        while start > 0 && self.watermarks[start - 1].epoch >= safe_epoch
            invariant
                start <= self.watermarks.len(),
                all == views(self.watermarks@),
                first_kept(all, safe_epoch) == first_kept(all.take(start as int), safe_epoch),
                known@ == covered_by_all(all.skip(start as int)),
            decreases start,
        {
            add_covered(&mut known, &self.watermarks[start - 1].vnode_watermarks);
            proof {
                assert(all.take(start as int).drop_last() =~= all.take(start - 1));
                assert(all.take(start as int).last() == all[start - 1]);
                lemma_covered_prepend(all, start - 1);
            }
            start = start - 1;
        }
        proof {
            if start > 0 {
                assert(all.take(start as int).last() == all[start - 1]);
            }
            assert(first_kept(all, safe_epoch) == start);
        }
        let ghost seen = known@;
        let ghost stale = all.take(start as int);
        let mut carried: Vec<VnodeWatermark> = Vec::new();
        let mut i: usize = start;
        assert(stale.take(i as int) =~= stale);
        assert(views(carried@) =~= Seq::empty());
        assert(views(carried@) + carried_over(stale.take(i as int), seen) =~= carried_over(
            stale,
            seen,
        ));
        while i > 0
            invariant
                i <= start <= self.watermarks.len(),
                all == views(self.watermarks@),
                stale == all.take(start as int),
                carried_over(stale, seen) == views(carried@) + carried_over(
                    stale.take(i as int),
                    known@,
                ),
            decreases i,
        {
            let ghost prior = views(carried@);
            let ghost prior_known = known@;
            carry_news(&mut carried, &mut known, &self.watermarks[i - 1].vnode_watermarks);
            proof {
                assert(stale.take(i as int).drop_last() =~= stale.take(i - 1));
                assert(stale.take(i as int).last() == all[i - 1]);
                assert(prior + carried_over(stale.take(i as int), prior_known) =~= views(
                    carried@,
                ) + carried_over(stale.take(i - 1), known@));
            }
            i = i - 1;
        }
        assert(carried_over(stale, seen) =~= views(carried@));
        let mut kept = clone_epoch_watermarks(&self.watermarks, start);
        let ghost kept_views = views(kept@);
        if carried.len() > 0 {
            if kept.len() > 0 && kept[0].epoch == safe_epoch {
                let ghost before = kept@;
                let ghost extra = views(carried@);
                let first = &mut kept[0];
                let ghost had = views(first.vnode_watermarks@);
                first.vnode_watermarks.append(&mut carried);
                proof {
                    assert(views(first.vnode_watermarks@) =~= had + extra);
                    crate::seqs::lemma_views_update(before, 0, *first);
                }
            } else {
                let first = EpochWatermarks { epoch: safe_epoch, vnode_watermarks: carried };
                let ghost before = kept@;
                kept.insert(0, first);
                assert(views(kept@) =~= seq![first@] + views(before));
            }
        }
        self.watermarks = kept;
    }
}

proof fn lemma_covered_prepend(w: Seq<EpochWatermarksView>, i: int)
    requires
        0 <= i < w.len(),
    ensures
        covered_by_all(w.skip(i)) == covered_by_all(w.skip(i + 1)).union(
            covered(w[i].vnode_watermarks),
        ),
{
    lemma_covered_concat(seq![w[i]], w.skip(i + 1));
    assert(seq![w[i]] + w.skip(i + 1) =~= w.skip(i));
    assert(covered_by_all(Seq::empty()) =~= Set::empty());
    assert(seq![w[i]].drop_last() =~= Seq::empty());
    assert(seq![w[i]].last() == w[i]);
    assert(covered_by_all(seq![w[i]]) =~= covered(w[i].vnode_watermarks));
    assert(covered_by_all(w.skip(i)) =~= covered_by_all(w.skip(i + 1)).union(
        covered(w[i].vnode_watermarks),
    ));
}

proof fn lemma_covered_concat(a: Seq<EpochWatermarksView>, b: Seq<EpochWatermarksView>)
    ensures
        covered_by_all(a + b) == covered_by_all(a).union(covered_by_all(b)),
    decreases b.len(),
{
    if b.len() == 0 {
        assert(a + b =~= a);
        assert(covered_by_all(a).union(Set::empty()) =~= covered_by_all(a));
    } else {
        lemma_covered_concat(a, b.drop_last());
        assert((a + b).drop_last() =~= a + b.drop_last());
        assert(covered_by_all(a + b) =~= covered_by_all(a).union(covered_by_all(b)));
    }
}

proof fn lemma_covered_push(w: Seq<VnodeWatermarkView>, x: VnodeWatermarkView)
    ensures
        covered(w.push(x)) == covered(w).union(vnodes_in(x.vnodes)),
{
    assert(w.push(x).drop_last() =~= w);
}

proof fn lemma_news_coverage(w: Seq<VnodeWatermarkView>, known: Set<usize>)
    ensures
        covered(news(w, known)).union(known) == covered(w).union(known),
    decreases w.len(),
{
    if w.len() > 0 {
        let t = w.drop_last();
        lemma_news_coverage(t, known);
        let seen = known.union(covered(t));
        let last = narrowed(w.last(), seen);
        lemma_covered_push(news(t, known), last);
        assert forall|v: usize| #[trigger] vnodes_in(w.last().vnodes).contains(v) && !seen.contains(
            v,
        ) <==> vnodes_in(last.vnodes).contains(v) by {}
        assert forall|v: usize| covered(news(w, known)).union(known).contains(v) <==> covered(
            w,
        ).union(known).contains(v) by {
            assert(covered(news(t, known)).union(known).contains(v) <==> covered(t).union(
                known,
            ).contains(v));
            if vnodes_in(last.vnodes).contains(v) {
                assert(last.vnodes[v as int]);
            }
            assert(vnodes_in(w.last().vnodes).contains(v) && !seen.contains(v) <==> vnodes_in(
                last.vnodes,
            ).contains(v));
        }
        assert(covered(news(w, known)).union(known) =~= covered(w).union(known));
    }
}

proof fn lemma_covered_join(a: Seq<VnodeWatermarkView>, b: Seq<VnodeWatermarkView>)
    ensures
        covered(a + b) == covered(a).union(covered(b)),
    decreases b.len(),
{
    if b.len() == 0 {
        assert(a + b =~= a);
        assert(covered(a).union(Set::empty()) =~= covered(a));
    } else {
        lemma_covered_join(a, b.drop_last());
        assert((a + b).drop_last() =~= a + b.drop_last());
        assert(covered(a + b) =~= covered(a).union(covered(b)));
    }
}

proof fn lemma_carried_coverage(w: Seq<EpochWatermarksView>, known: Set<usize>)
    ensures
        covered(carried_over(w, known)).union(known) == covered_by_all(w).union(known),
    decreases w.len(),
{
    if w.len() > 0 {
        let t = w.drop_last();
        let last = w.last().vnode_watermarks;
        let seen = known.union(covered(last));
        lemma_carried_coverage(t, seen);
        lemma_news_coverage(last, known);
        lemma_covered_join(news(last, known), carried_over(t, seen));
        assert forall|v: usize| covered(carried_over(w, known)).union(known).contains(v)
            <==> covered_by_all(w).union(known).contains(v) by {
            assert(covered(carried_over(t, seen)).union(seen).contains(v) <==> covered_by_all(
                t,
            ).union(seen).contains(v));
            assert(covered(news(last, known)).union(known).contains(v) <==> covered(last).union(
                known,
            ).contains(v));
        }
        assert(covered(carried_over(w, known)).union(known) =~= covered_by_all(w).union(known));
    }
}

/// Clearing watermarks forgets no virtual node: those that had a watermark have one after it, and no
/// others.
pub proof fn clearing_keeps_covered_vnodes(w: TableWatermarksView, safe_epoch: u64)
    ensures
        covered_by_all(w.cleared(safe_epoch).watermarks) == covered_by_all(w.watermarks),
{
    let all = w.watermarks;
    if all.len() > 0 && all[0].epoch < safe_epoch {
        lemma_first_kept(all, safe_epoch);
        let start = first_kept(all, safe_epoch);
        let (stale, kept) = (all.take(start), all.skip(start));
        let known = covered_by_all(kept);
        let carried = carried_over(stale, known);
        let r = with_carried(kept, carried, safe_epoch);
        lemma_covered_concat(stale, kept);
        assert(stale + kept =~= all);
        lemma_carried_coverage(stale, known);
        assert(covered_by_all(all) =~= covered(carried).union(known));
        if carried.len() == 0 {
            assert(covered(carried) =~= Set::empty());
            assert(covered_by_all(r) =~= covered_by_all(all));
        } else if kept.len() > 0 && kept[0].epoch == safe_epoch {
            let joined = EpochWatermarksView {
                vnode_watermarks: kept[0].vnode_watermarks + carried,
                ..kept[0]
            };
            lemma_covered_join(kept[0].vnode_watermarks, carried);
            lemma_covered_prepend(kept, 0);
            lemma_covered_prepend(r, 0);
            assert(kept.skip(0) =~= kept);
            assert(r.skip(0) =~= r);
            assert(r.skip(1) =~= kept.skip(1));
            assert(covered_by_all(r) =~= covered_by_all(all));
        } else {
            lemma_covered_prepend(r, 0);
            assert(r.skip(0) =~= r);
            assert(r.skip(1) =~= kept);
            assert(covered_by_all(r) =~= covered_by_all(all));
        }
    }
}

proof fn lemma_first_kept(w: Seq<EpochWatermarksView>, safe_epoch: u64)
    ensures
        0 <= first_kept(w, safe_epoch) <= w.len(),
        forall|i: int|
            first_kept(w, safe_epoch) <= i < w.len() ==> (#[trigger] w[i]).epoch >= safe_epoch,
    decreases w.len(),
{
    if w.len() > 0 && w.last().epoch >= safe_epoch {
        let t = w.drop_last();
        lemma_first_kept(t, safe_epoch);
        assert forall|i: int| first_kept(w, safe_epoch) <= i < w.len() implies (
        #[trigger] w[i]).epoch >= safe_epoch by {
            if i < t.len() {
                assert(t[i] == w[i]);
            }
        }
    }
}

/// After clearing, no watermark is older than the safe epoch, and the epochs are in order if they
/// were so before.
pub proof fn clearing_drops_stale_epochs(w: TableWatermarksView, safe_epoch: u64)
    requires
        epochs_sorted(w.watermarks),
    ensures
        epochs_sorted(w.cleared(safe_epoch).watermarks),
        forall|i: int|
            0 <= i < w.cleared(safe_epoch).watermarks.len() ==> (#[trigger] w.cleared(
                safe_epoch,
            ).watermarks[i]).epoch >= safe_epoch,
{
    let all = w.watermarks;
    let r = w.cleared(safe_epoch).watermarks;
    if all.len() > 0 && all[0].epoch < safe_epoch {
        lemma_first_kept(all, safe_epoch);
        let start = first_kept(all, safe_epoch);
        let kept = all.skip(start);
        let carried = carried_over(all.take(start), covered_by_all(kept));
        let shift = r.len() - kept.len();
        assert forall|i: int| 0 <= i < kept.len() implies (#[trigger] kept[i]).epoch
            >= safe_epoch by {
            assert(kept[i] == all[start + i]);
        }
        assert forall|i: int| 0 <= i < r.len() implies (#[trigger] r[i]).epoch >= safe_epoch by {
            if i >= shift {
                assert(r[i].epoch == kept[i - shift].epoch);
            }
        }
        assert forall|i: int, j: int| 0 <= i < j < r.len() implies (#[trigger] r[i]).epoch <= (
        #[trigger] r[j]).epoch by {
            assert(r[j].epoch == kept[j - shift].epoch);
            if i >= shift {
                assert(r[i].epoch == kept[i - shift].epoch);
                assert(all[start + i - shift].epoch <= all[start + j - shift].epoch);
            }
        }
    } else if all.len() > 0 {
        assert forall|i: int| 0 <= i < r.len() implies (#[trigger] r[i]).epoch >= safe_epoch by {
            if i > 0 {
                assert(all[0].epoch <= all[i].epoch);
            }
        }
    }
}

/// Newer watermarks behind older ones leave the epochs in order.
pub proof fn following_keeps_epochs_sorted(
    older: TableWatermarksView,
    newer: TableWatermarksView,
)
    requires
        older.precedes(newer),
    ensures
        epochs_sorted(older.followed_by(newer).watermarks),
{
    let (a, b) = (older.watermarks, newer.watermarks);
    let r = a + b;
    assert forall|i: int, j: int| 0 <= i < j < r.len() implies (#[trigger] r[i]).epoch <= (
    #[trigger] r[j]).epoch by {
        if j < a.len() {
            assert(a[i].epoch <= a[j].epoch);
        } else if i >= a.len() {
            assert(b[i - a.len()].epoch <= b[j - a.len()].epoch);
        } else {
            if i < a.len() - 1 {
                assert(a[i].epoch <= a[a.len() - 1].epoch);
            }
            if j > a.len() {
                assert(b[0].epoch <= b[j - a.len()].epoch);
            }
        }
    }
}

} // verus!
