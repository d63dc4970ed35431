//! The change logs of tables.
use crate::seqs::retain;
use crate::sstable_info::{clone_ssts, SstableInfo};
use vstd::prelude::*;

#[allow(unused_imports)]
use crate::seqs::{keep, lemma_keep_contains, lemma_views_update, option_view, views};
#[allow(unused_imports)]
use crate::sstable_info::SstView;

verus! {

/// What a change log entry stands for.
#[verifier::ext_equal]
pub struct ChangeLogEntryView {
    pub new_value: Seq<SstView>,
    pub old_value: Seq<SstView>,
    pub epochs: Seq<u64>,
}

/// The changes of a table over some epochs.
#[derive(Debug, Default, PartialEq, Eq)]
pub struct EpochNewChangeLog {
    pub new_value: Vec<SstableInfo>,
    pub old_value: Vec<SstableInfo>,
    pub epochs: Vec<u64>,
}

/// The change log of a table, oldest entry first.
#[derive(Debug, Default, PartialEq, Eq)]
pub struct TableChangeLog(pub Vec<EpochNewChangeLog>);

/// What a version delta adds to a change log, and up to which epoch it is cut.
#[derive(Debug, Default, PartialEq, Eq)]
pub struct ChangeLogDelta {
    pub truncate_epoch: u64,
    pub new_log: Option<EpochNewChangeLog>,
}

/// What a change log delta stands for.
#[verifier::ext_equal]
pub struct ChangeLogDeltaView {
    pub truncate_epoch: u64,
    pub new_log: Option<ChangeLogEntryView>,
}

impl View for EpochNewChangeLog {
    type V = ChangeLogEntryView;

    open spec fn view(&self) -> ChangeLogEntryView {
        ChangeLogEntryView {
            new_value: views(self.new_value@),
            old_value: views(self.old_value@),
            epochs: self.epochs@,
        }
    }
}

impl View for TableChangeLog {
    type V = Seq<ChangeLogEntryView>;

    open spec fn view(&self) -> Seq<ChangeLogEntryView> {
        views(self.0@)
    }
}

impl View for ChangeLogDelta {
    type V = ChangeLogDeltaView;

    open spec fn view(&self) -> ChangeLogDeltaView {
        ChangeLogDeltaView {
            truncate_epoch: self.truncate_epoch,
            new_log: option_view(self.new_log),
        }
    }
}

impl Clone for EpochNewChangeLog {
    fn clone(&self) -> (r: EpochNewChangeLog)
        ensures
            r@ == self@,
    {
        let epochs = self.epochs.clone();
        assert(epochs@ =~= self.epochs@);
        EpochNewChangeLog {
            new_value: clone_ssts(&self.new_value),
            old_value: clone_ssts(&self.old_value),
            epochs,
        }
    }
}

/// Whether an epoch is later than another.
pub open spec fn later_than(epoch: u64) -> spec_fn(u64) -> bool {
    |e: u64| e > epoch
}

/// Whether the last epoch of a change log entry is later than an epoch.
pub open spec fn ends_later_than(epoch: u64) -> spec_fn(ChangeLogEntryView) -> bool {
    |e: ChangeLogEntryView| e.epochs.len() > 0 && e.epochs.last() > epoch
}

/// Whether every entry has an epoch.
pub open spec fn has_epochs(log: Seq<ChangeLogEntryView>) -> bool {
    forall|i: int| 0 <= i < log.len() ==> (#[trigger] log[i]).epochs.len() > 0
}

/// The change log with the entries gone that end at `epoch` or earlier, and with the epochs gone
/// from the first entry left that are not later.
pub open spec fn truncated(log: Seq<ChangeLogEntryView>, epoch: u64) -> Seq<ChangeLogEntryView> {
    let left = keep(log, ends_later_than(epoch));
    if left.len() == 0 {
        left
    } else {
        left.update(
            0,
            ChangeLogEntryView { epochs: keep(left[0].epochs, later_than(epoch)), ..left[0] },
        )
    }
}

impl TableChangeLog {
    /// Cuts the change log at an epoch.
    pub fn truncate(&mut self, truncate_epoch: u64)
        requires
            has_epochs(old(self)@),
        ensures
            final(self)@ == truncated(old(self)@, truncate_epoch),
    {
        let ghost start = self@;
        let mut log: Vec<EpochNewChangeLog> = Vec::new();
        log.append(&mut self.0);
        assert(views(log@) =~= start);
        let mut i: usize = 0;
        let mut left: Vec<EpochNewChangeLog> = Vec::new();
        assert(keep(start.take(0), ends_later_than(truncate_epoch)) =~= Seq::empty());
        assert(views(left@) =~= Seq::empty());
        while i < log.len()
            invariant
                i <= log.len(),
                views(log@) == start,
                has_epochs(start),
                views(left@) == keep(start.take(i as int), ends_later_than(truncate_epoch)),
            decreases log.len() - i,
        {
            proof {
                crate::seqs::lemma_keep_take(start, i as int, ends_later_than(truncate_epoch));
            }
            let entry = log[i].clone();
            assert(entry@ == start[i as int]);
            assert(start[i as int].epochs.len() > 0);
            if entry.epochs[entry.epochs.len() - 1] > truncate_epoch {
                proof {
                    crate::seqs::lemma_views_push(left@, entry);
                }
                left.push(entry);
            }
            i = i + 1;
        }
        assert(start.take(i as int) =~= start);
        if left.len() > 0 {
            let ghost before = left@;
            let ghost keep_it = later_than(truncate_epoch);
            let stays = |e: &u64| -> (b: bool)
                ensures
                    b == keep_it(e@),
                { *e > truncate_epoch };
            let first = &mut left[0];
            let ghost epochs = first.epochs@;
            retain(&mut first.epochs, stays, Ghost(keep_it));
            proof {
                assert(views(epochs) =~= epochs);
                assert(views(first.epochs@) =~= first.epochs@);
                lemma_views_update(before, 0, *first);
            }
        }
        self.0 = left;
    }
}

/// Cutting a change log leaves no entry that ends at the epoch or earlier.
pub proof fn truncated_log_is_later(log: Seq<ChangeLogEntryView>, epoch: u64)
    requires
        has_epochs(log),
    ensures
        has_epochs(truncated(log, epoch)),
        forall|i: int|
            0 <= i < truncated(log, epoch).len() ==> (#[trigger] truncated(
                log,
                epoch,
            )[i]).epochs.last() > epoch,
{
    let left = keep(log, ends_later_than(epoch));
    let r = truncated(log, epoch);
    lemma_keep_contains(log, ends_later_than(epoch));
    assert forall|i: int| 0 <= i < left.len() implies ends_later_than(epoch)(#[trigger] left[i]) by {
        assert(left.contains(left[i]));
    }
    assert forall|i: int| 0 <= i < r.len() implies (#[trigger] r[i]).epochs.len() > 0
        && r[i].epochs.last() > epoch by {
        assert(ends_later_than(epoch)(left[i]));
        if i == 0 {
            let e = left[0].epochs;
            assert(later_than(epoch)(e.last()));
            assert(keep(e, later_than(epoch)).last() == e.last());
        }
    }
}

} // verus!
