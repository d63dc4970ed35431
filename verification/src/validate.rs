//! Checking a version for violations of what should hold of it.
use crate::level::{CompactionGroupId, Level, LevelType, Levels};
use crate::maps::keys_of;
use crate::text::{decimal_string, level_type_str, sst_string};
use crate::version::HummockVersion;
use vstd::prelude::*;

#[allow(unused_imports)]
use crate::group_deltas::strictly_increasing;
#[allow(unused_imports)]
use crate::level::{LevelView, LevelsView};
#[allow(unused_imports)]
use crate::maps::{gather, is_walk, lemma_gather_take};
#[allow(unused_imports)]
use crate::seqs::{lemma_views_push, views};
#[allow(unused_imports)]
use crate::sstable_info::next_comparable;
#[allow(unused_imports)]
use crate::text::{decimal, level_type_text, sst_text};
#[allow(unused_imports)]
use crate::version::VersionView;

verus! {

/// A violation is listed by its text where it holds.
pub open spec fn listed_if(holds: bool, text: Seq<char>) -> Seq<Seq<char>> {
    if holds {
        seq![text]
    } else {
        Seq::empty()
    }
}

/// How a level is named in a violation.
pub open spec fn level_name(group_id: CompactionGroupId, level: LevelView) -> Seq<char> {
    let name = "GROUP "@ + decimal(group_id) + " LEVEL "@ + decimal(level.level_idx as u64);
    if level.level_idx == 0 {
        name + "SUBLEVEL "@ + decimal(level.sub_level_id)
    } else {
        name
    }
}

/// Whether a level is of the wrong kind: an empty sub-level, or a level above 0 that lets SSTs
/// overlap.
pub open spec fn kind_violations(name: Seq<char>, level: LevelView) -> Seq<Seq<char>> {
    if level.level_idx == 0 {
        listed_if(level.table_infos.len() == 0, name + ": empty level"@)
    } else {
        listed_if(
            level.level_type != LevelType::Nonoverlapping,
            name + ": level type "@ + level_type_text(level.level_type)
                + " is not non-overlapping"@,
        )
    }
}

/// Whether an SST of a level that lets none overlap overlaps the one in front of it.
pub open spec fn overlaps_previous(level: LevelView, i: int) -> bool {
    level.level_type == LevelType::Nonoverlapping && i > 0 && !level.table_infos[i
        - 1].key_range.ends_before(level.table_infos[i].key_range.left)
}

/// The violations at an SST: its table ids are not in order, or it overlaps the one in front.
pub open spec fn sst_violations(name: Seq<char>, level: LevelView, i: int) -> Seq<Seq<char>> {
    let sst = level.table_infos[i];
    listed_if(
        !strictly_increasing(sst.table_ids),
        name + " SST "@ + decimal(sst.object_id) + ": table_ids not sorted"@,
    ) + listed_if(
        overlaps_previous(level, i),
        name + " SST "@ + decimal(sst.object_id) + ": key range should not overlap. prev="@
            + sst_text(level.table_infos[i - 1]) + ", cur="@ + sst_text(sst),
    )
}

/// The violations at the first `n` SSTs of a level.
pub open spec fn first_sst_violations(name: Seq<char>, level: LevelView, n: int) -> Seq<Seq<char>>
    decreases n,
{
    if n <= 0 {
        Seq::empty()
    } else {
        first_sst_violations(name, level, n - 1) + sst_violations(name, level, n - 1)
    }
}

/// The violations in a level that should have the number `expected`.
#[verifier::opaque]
pub open spec fn level_violations(
    group_id: CompactionGroupId,
    expected: u32,
    level: LevelView,
) -> Seq<Seq<char>> {
    let name = level_name(group_id, level);
    kind_violations(name, level) + listed_if(
        level.level_idx != expected,
        name + ": mismatched level idx "@ + decimal(expected as u64),
    ) + first_sst_violations(name, level, level.table_infos.len() as int)
}

/// The id of the sub-level in front; the largest number in front of all.
pub open spec fn id_in_front(sub_levels: Seq<LevelView>, i: int) -> u64 {
    if i > 0 {
        sub_levels[i - 1].sub_level_id
    } else {
        u64::MAX
    }
}

/// The violations at a sub-level: its id is not smaller than that of the one in front, and those
/// in it.
pub open spec fn sub_level_violations(
    group_id: CompactionGroupId,
    sub_levels: Seq<LevelView>,
    i: int,
) -> Seq<Seq<char>> {
    listed_if(
        sub_levels[i].sub_level_id >= id_in_front(sub_levels, i),
        "GROUP "@ + decimal(group_id) + " LEVEL 0: sub_level_id "@ + decimal(
            sub_levels[i].level_idx as u64,
        ) + " >= prev_sub_level "@ + decimal(id_in_front(sub_levels, i)),
    ) + level_violations(group_id, 0, sub_levels[i])
}

/// The violations at the first `n` sub-levels.
pub open spec fn first_sub_level_violations(
    group_id: CompactionGroupId,
    sub_levels: Seq<LevelView>,
    n: int,
) -> Seq<Seq<char>>
    decreases n,
{
    if n <= 0 {
        Seq::empty()
    } else {
        first_sub_level_violations(group_id, sub_levels, n - 1) + sub_level_violations(
            group_id,
            sub_levels,
            n - 1,
        )
    }
}

/// The violations in the first `n` levels above 0.
pub open spec fn first_level_violations(
    group_id: CompactionGroupId,
    levels: Seq<LevelView>,
    n: int,
) -> Seq<Seq<char>>
    decreases n,
{
    if n <= 0 {
        Seq::empty()
    } else {
        first_level_violations(group_id, levels, n - 1) + level_violations(
            group_id,
            n as u32,
            levels[n - 1],
        )
    }
}

/// The violations in a group.
pub open spec fn group_violations(group_id: CompactionGroupId, levels: LevelsView) -> Seq<
    Seq<char>,
> {
    listed_if(
        levels.group_id != group_id,
        "GROUP "@ + decimal(group_id) + ": inconsistent group id "@ + decimal(levels.group_id)
            + " in Levels"@,
    ) + first_sub_level_violations(
        group_id,
        levels.l0.sub_levels,
        levels.l0.sub_levels.len() as int,
    ) + first_level_violations(group_id, levels.levels, levels.levels.len() as int)
}

/// Whether in a level that lets no SSTs overlap each can be held against the next.
pub open spec fn level_comparable(level: LevelView) -> bool {
    level.level_type == LevelType::Nonoverlapping ==> forall|i: int|
        1 <= i < level.table_infos.len() ==> #[trigger] next_comparable(level.table_infos, i)
}

/// Whether that holds of all levels of a group.
pub open spec fn group_comparable(levels: LevelsView) -> bool {
    &&& forall|i: int|
        0 <= i < levels.l0.sub_levels.len() ==> level_comparable(
            #[trigger] levels.l0.sub_levels[i],
        )
    &&& forall|i: int|
        0 <= i < levels.levels.len() ==> level_comparable(#[trigger] levels.levels[i])
}

impl VersionView {
    /// The violations in a group of the version.
    pub open spec fn violations_of(self) -> spec_fn(CompactionGroupId) -> Seq<Seq<char>> {
        |g: CompactionGroupId| group_violations(g, self.levels[g])
    }

    /// The violations in the version, with the groups in the given order.
    pub open spec fn violations(self, order: Seq<CompactionGroupId>) -> Seq<Seq<char>> {
        listed_if(
            self.safe_epoch > self.max_committed_epoch,
            "VERSION: safe_epoch "@ + decimal(self.safe_epoch) + " > max_committed_epoch "@
                + decimal(self.max_committed_epoch),
        ) + gather(order, self.violations_of())
    }
}

proof fn lemma_add_assoc<A>(a: Seq<A>, b: Seq<A>, c: Seq<A>)
    ensures
        a + b + c == a + (b + c),
{
    assert(a + b + c =~= a + (b + c));
}

proof fn lemma_add_assoc_four<A>(a: Seq<A>, b: Seq<A>, c: Seq<A>, d: Seq<A>)
    ensures
        a + b + c + d == a + (b + c + d),
{
    lemma_add_assoc(a, b, c);
    lemma_add_assoc(a, b + c, d);
}

proof fn lemma_add_none(a: Seq<Seq<char>>, text: Seq<char>)
    ensures
        a + listed_if(false, text) == a,
{
    assert(a + listed_if(false, text) =~= a);
}

/// Adds a violation to the list.
fn note_text(res: &mut Vec<String>, text: String)
    ensures
        views(final(res)@) == views(old(res)@) + listed_if(true, text@),
{
    let ghost start = res@;
    proof {
        lemma_views_push(start, text);
        assert(views(start).push(text@) =~= views(start) + seq![text@]);
    }
    res.push(text);
}

/// Whether the table ids are in order, each once.
fn ids_increase(ids: &Vec<u32>) -> (r: bool)
    ensures
        r == strictly_increasing(ids@),
{
    let mut i: usize = 1;
    while i < ids.len()
        invariant
            1 <= i,
            i <= ids.len() || ids.len() == 0,
            forall|a: int, b: int| 0 <= a < b < i && b < ids@.len() ==> ids@[a] < ids@[b],
        decreases ids.len() - i,
    {
        if ids[i - 1] >= ids[i] {
            return false;
        }
        assert forall|a: int, b: int| 0 <= a < b < i + 1 implies ids@[a] < ids@[b] by {
            if b == i && a < i - 1 {
                assert(ids@[a] < ids@[i - 1]);
            }
        }
        i = i + 1;
    }
    true
}

/// How a level is named in a violation.
fn level_name_string(group_id: CompactionGroupId, level: &Level) -> (r: String)
    ensures
        r@ == level_name(group_id, level@),
{
    let mut r = "GROUP ".to_owned();
    r.append(decimal_string(group_id).as_str());
    r.append(" LEVEL ");
    r.append(decimal_string(level.level_idx as u64).as_str());
    if level.level_idx == 0 {
        r.append("SUBLEVEL ");
        r.append(decimal_string(level.sub_level_id).as_str());
    }
    r
}

/// Lists a level that is of the wrong kind.
fn note_kind(res: &mut Vec<String>, name: &String, level: &Level)
    ensures
        views(final(res)@) == views(old(res)@) + kind_violations(name@, level@),
{
    let ghost start = views(res@);
    if level.level_idx == 0 {
        if level.table_infos.len() == 0 {
            let mut text = name.clone();
            text.append(": empty level");
            note_text(res, text);
        } else {
            assert(start + Seq::empty() =~= start);
        }
    } else if level.level_type != LevelType::Nonoverlapping {
        let mut text = name.clone();
        text.append(": level type ");
        text.append(level_type_str(level.level_type));
        text.append(" is not non-overlapping");
        note_text(res, text);
    } else {
        assert(start + Seq::empty() =~= start);
    }
}

/// Lists the violations at an SST.
fn note_sst(res: &mut Vec<String>, name: &String, level: &Level, i: usize)
    requires
        i < level@.table_infos.len(),
        level_comparable(level@),
    ensures
        views(final(res)@) == views(old(res)@) + sst_violations(name@, level@, i as int),
{
    let ghost start = views(res@);
    let sst = &level.table_infos[i];
    assert(sst@ == level@.table_infos[i as int]);
    if !ids_increase(&sst.table_ids) {
        let mut text = name.clone();
        text.append(" SST ");
        text.append(decimal_string(sst.object_id).as_str());
        text.append(": table_ids not sorted");
        note_text(res, text);
    } else {
        proof {
            lemma_add_none(start, name@ + " SST "@ + decimal(sst.object_id)
                + ": table_ids not sorted"@);
        }
    }
    let ghost middle = views(res@);
    let ghost order = listed_if(
        !strictly_increasing(sst@.table_ids),
        name@ + " SST "@ + decimal(sst.object_id) + ": table_ids not sorted"@,
    );
    assert(middle == start + order);
    let ghost overlap_text = name@ + " SST "@ + decimal(sst.object_id)
        + ": key range should not overlap. prev="@ + sst_text(level@.table_infos[i - 1])
        + ", cur="@ + sst_text(sst@);
    let mut overlaps = false;
    if level.level_type == LevelType::Nonoverlapping && i > 0 {
        assert(next_comparable(level@.table_infos, i as int));
        overlaps = !level.table_infos[i - 1].key_range.ends_before(&sst.key_range.left);
    }
    assert(overlaps == overlaps_previous(level@, i as int));
    if overlaps {
        let mut text = name.clone();
        text.append(" SST ");
        text.append(decimal_string(sst.object_id).as_str());
        text.append(": key range should not overlap. prev=");
        text.append(sst_string(&level.table_infos[i - 1]).as_str());
        text.append(", cur=");
        text.append(sst_string(sst).as_str());
        note_text(res, text);
    } else {
        proof {
            lemma_add_none(middle, overlap_text);
        }
    }
    proof {
        lemma_add_assoc(start, order, listed_if(overlaps, overlap_text));
    }
}

/// Lists the violations in a level.
fn note_level(res: &mut Vec<String>, group_id: CompactionGroupId, expected: u32, level: &Level)
    requires
        level_comparable(level@),
    ensures
        views(final(res)@) == views(old(res)@) + level_violations(group_id, expected, level@),
{
    proof {
        reveal(level_violations);
    }
    let ghost start = views(res@);
    let name = level_name_string(group_id, level);
    note_kind(res, &name, level);
    let ghost kind = views(res@);
    let ghost number_text = name@ + ": mismatched level idx "@ + decimal(expected as u64);
    if level.level_idx != expected {
        let mut text = name.clone();
        text.append(": mismatched level idx ");
        text.append(decimal_string(expected as u64).as_str());
        note_text(res, text);
    } else {
        proof {
            lemma_add_none(kind, number_text);
        }
    }
    let ghost middle = views(res@);
    let mut i: usize = 0;
    assert(middle + first_sst_violations(name@, level@, 0) =~= middle);
    while i < level.table_infos.len()
        invariant
            i <= level.table_infos.len(),
            level_comparable(level@),
            views(res@) == middle + first_sst_violations(name@, level@, i as int),
        decreases level.table_infos.len() - i,
    {
        let ghost before = first_sst_violations(name@, level@, i as int);
        note_sst(res, &name, level, i);
        proof {
            lemma_add_assoc(middle, before, sst_violations(name@, level@, i as int));
        }
        i = i + 1;
    }
    proof {
        lemma_add_assoc_four(
            start,
            kind_violations(name@, level@),
            listed_if(level.level_idx != expected, number_text),
            first_sst_violations(name@, level@, level@.table_infos.len() as int),
        );
    }
}

/// Lists the violations at a sub-level behind one with the id `prev_sub_level_id`.
fn note_sub_level(
    res: &mut Vec<String>,
    group_id: CompactionGroupId,
    sub_levels: &Vec<Level>,
    i: usize,
    prev_sub_level_id: u64,
)
    requires
        i < sub_levels@.len(),
        prev_sub_level_id == id_in_front(views(sub_levels@), i as int),
        level_comparable(views(sub_levels@)[i as int]),
    ensures
        views(final(res)@) == views(old(res)@) + sub_level_violations(
            group_id,
            views(sub_levels@),
            i as int,
        ),
{
    let sub_level = &sub_levels[i];
    let ghost before = views(res@);
    let ghost order_text = "GROUP "@ + decimal(group_id) + " LEVEL 0: sub_level_id "@ + decimal(
        sub_level.level_idx as u64,
    ) + " >= prev_sub_level "@ + decimal(prev_sub_level_id);
    if sub_level.sub_level_id >= prev_sub_level_id {
        let mut text = "GROUP ".to_owned();
        text.append(decimal_string(group_id).as_str());
        text.append(" LEVEL 0: sub_level_id ");
        text.append(decimal_string(sub_level.level_idx as u64).as_str());
        text.append(" >= prev_sub_level ");
        text.append(decimal_string(prev_sub_level_id).as_str());
        note_text(res, text);
    } else {
        proof {
            lemma_add_none(before, order_text);
        }
    }
    note_level(res, group_id, 0, sub_level);
    proof {
        lemma_add_assoc(
            before,
            listed_if(sub_level.sub_level_id >= prev_sub_level_id, order_text),
            level_violations(group_id, 0, sub_level@),
        );
    }
}

/// Lists the violations at the sub-levels.
fn note_sub_levels(res: &mut Vec<String>, group_id: CompactionGroupId, sub_levels: &Vec<Level>)
    requires
        forall|i: int|
            0 <= i < sub_levels@.len() ==> level_comparable(#[trigger] views(sub_levels@)[i]),
    ensures
        views(final(res)@) == views(old(res)@) + first_sub_level_violations(
            group_id,
            views(sub_levels@),
            sub_levels@.len() as int,
        ),
{
    let ghost first = views(res@);
    let ghost subs = views(sub_levels@);
    let mut prev_sub_level_id: u64 = u64::MAX;
    let mut i: usize = 0;
    assert(first + first_sub_level_violations(group_id, subs, 0) =~= first);
    while i < sub_levels.len()
        invariant
            i <= sub_levels.len(),
            subs == views(sub_levels@),
            forall|k: int| 0 <= k < subs.len() ==> level_comparable(#[trigger] subs[k]),
            prev_sub_level_id == id_in_front(subs, i as int),
            views(res@) == first + first_sub_level_violations(group_id, subs, i as int),
        decreases sub_levels.len() - i,
    {
        let ghost before = first_sub_level_violations(group_id, subs, i as int);
        note_sub_level(res, group_id, sub_levels, i, prev_sub_level_id);
        prev_sub_level_id = sub_levels[i].sub_level_id;
        proof {
            lemma_add_assoc(first, before, sub_level_violations(group_id, subs, i as int));
        }
        i = i + 1;
    }
}

proof fn lemma_first_levels_next(group_id: CompactionGroupId, levels: Seq<LevelView>, n: int)
    requires
        n > 0,
    ensures
        first_level_violations(group_id, levels, n) == first_level_violations(
            group_id,
            levels,
            n - 1,
        ) + level_violations(group_id, n as u32, levels[n - 1]),
{
}

/// Lists the violations in the levels above 0.
fn note_levels(res: &mut Vec<String>, group_id: CompactionGroupId, levels: &Levels)
    requires
        group_comparable(levels@),
    ensures
        views(final(res)@) == views(old(res)@) + first_level_violations(
            group_id,
            levels@.levels,
            levels@.levels.len() as int,
        ),
{
    let ghost second = views(res@);
    let ghost upper = levels@.levels;
    let mut j: usize = 0;
    assert(second + first_level_violations(group_id, upper, 0) =~= second);
    while j < levels.levels.len()
        invariant
            j <= levels.levels.len(),
            upper == levels@.levels,
            group_comparable(levels@),
            views(res@) == second + first_level_violations(group_id, upper, j as int),
        decreases levels.levels.len() - j,
    {
        let level = levels.get_level(j + 1);
        assert(level@ == upper[j as int]);
        let ghost before = first_level_violations(group_id, upper, j as int);
        note_level(res, group_id, (j + 1) as u32, level);
        proof {
            lemma_first_levels_next(group_id, upper, j + 1);
            lemma_add_assoc(
                second,
                before,
                level_violations(group_id, (j + 1) as u32, upper[j as int]),
            );
        }
        j = j + 1;
    }
}

/// Lists the violations in a group.
fn note_group(res: &mut Vec<String>, group_id: CompactionGroupId, levels: &Levels)
    requires
        group_comparable(levels@),
    ensures
        views(final(res)@) == views(old(res)@) + group_violations(group_id, levels@),
{
    let ghost start = views(res@);
    let ghost id_text = "GROUP "@ + decimal(group_id) + ": inconsistent group id "@ + decimal(
        levels.group_id,
    ) + " in Levels"@;
    if levels.group_id != group_id {
        let mut text = "GROUP ".to_owned();
        text.append(decimal_string(group_id).as_str());
        text.append(": inconsistent group id ");
        text.append(decimal_string(levels.group_id).as_str());
        text.append(" in Levels");
        note_text(res, text);
    } else {
        proof {
            lemma_add_none(start, id_text);
        }
    }
    assert forall|i: int| 0 <= i < levels.l0.sub_levels@.len() implies level_comparable(
        #[trigger] views(levels.l0.sub_levels@)[i],
    ) by {
        assert(level_comparable(levels@.l0.sub_levels[i]));
    }
    note_sub_levels(res, group_id, &levels.l0.sub_levels);
    note_levels(res, group_id, levels);
    proof {
        lemma_add_assoc_four(
            start,
            listed_if(levels.group_id != group_id, id_text),
            first_sub_level_violations(
                group_id,
                levels@.l0.sub_levels,
                levels@.l0.sub_levels.len() as int,
            ),
            first_level_violations(group_id, levels@.levels, levels@.levels.len() as int),
        );
    }
}

/// Lists the violations in a version, with the groups in the given order.
pub fn violations_in_order(version: &HummockVersion, groups: &Vec<CompactionGroupId>) -> (r: Vec<
    String,
>)
    requires
        is_walk(groups@, version@.levels.dom()),
        forall|g: CompactionGroupId| #[trigger]
            version@.levels.dom().contains(g) ==> group_comparable(version@.levels[g]),
    ensures
        views(r@) == version@.violations(groups@),
{
    let mut res: Vec<String> = Vec::new();
    let ghost none = views(res@);
    assert(none =~= Seq::empty());
    if version.visible_table_safe_epoch() > version.max_committed_epoch {
        let mut text = "VERSION: safe_epoch ".to_owned();
        text.append(decimal_string(version.visible_table_safe_epoch()).as_str());
        text.append(" > max_committed_epoch ");
        text.append(decimal_string(version.max_committed_epoch).as_str());
        note_text(&mut res, text);
    }
    let ghost first = views(res@);
    let ghost part = version@.violations_of();
    let mut i: usize = 0;
    proof {
        assert(first =~= listed_if(
            version@.safe_epoch > version@.max_committed_epoch,
            "VERSION: safe_epoch "@ + decimal(version@.safe_epoch) + " > max_committed_epoch "@
                + decimal(version@.max_committed_epoch),
        ));
        assert(first + gather(groups@.take(0), part) =~= first);
    }
    while i < groups.len()
        invariant
            i <= groups.len(),
            is_walk(groups@, version@.levels.dom()),
            part == version@.violations_of(),
            forall|g: CompactionGroupId| #[trigger]
                version@.levels.dom().contains(g) ==> group_comparable(version@.levels[g]),
            views(res@) == first + gather(groups@.take(i as int), part),
        decreases groups.len() - i,
    {
        let group_id: CompactionGroupId = groups[i];
        proof {
            assert(groups@.to_set().contains(groups@[i as int]));
            assert(version@.levels.dom().contains(group_id));
            lemma_gather_take(groups@, i as int, part);
        }
        let ghost before = gather(groups@.take(i as int), part);
        if let Some(levels) = version.levels.get(&group_id) {
            assert(version@.levels[group_id] == levels@);
            note_group(&mut res, group_id, levels);
            proof {
                lemma_add_assoc(first, before, part(group_id));
            }
        }
        i = i + 1;
    }
    assert(groups@.take(i as int) =~= groups@);
    res
}

/// Lists the violations in a version, with the groups in the order in which they are met.
pub fn validate_version(version: &HummockVersion) -> (r: Vec<String>)
    requires
        forall|g: CompactionGroupId| #[trigger]
            version@.levels.dom().contains(g) ==> group_comparable(version@.levels[g]),
    ensures
        exists|order: Seq<CompactionGroupId>| #[trigger]
            is_walk(order, version@.levels.dom()) && views(r@) == version@.violations(order),
        r@.len() == 0 <==> version@.valid(),
{
    let groups = keys_of(&version.levels);
    proof {
        assert(version@.levels.dom() =~= version.levels@.dom());
        assert(is_walk(groups@, version@.levels.dom()));
        no_violations_if_valid(version@, groups@);
    }
    violations_in_order(version, &groups)
}

/// Whether a level is as it should be: it has its number, a sub-level is not empty, a level above 0
/// lets no SSTs overlap and none do, and each SST lists its tables in order.
pub open spec fn level_valid(expected: u32, level: LevelView) -> bool {
    &&& level.level_idx == expected
    &&& level.level_idx == 0 ==> level.table_infos.len() > 0
    &&& level.level_idx != 0 ==> level.level_type == LevelType::Nonoverlapping
    &&& forall|i: int| 0 <= i < level.table_infos.len() ==> #[trigger] sst_valid(level, i)
}

/// Whether an SST of a level is as it should be.
pub open spec fn sst_valid(level: LevelView, i: int) -> bool {
    strictly_increasing(level.table_infos[i].table_ids) && !overlaps_previous(level, i)
}

/// Whether a group is as it should be.
pub open spec fn group_valid(group_id: CompactionGroupId, levels: LevelsView) -> bool {
    &&& levels.group_id == group_id
    &&& forall|i: int|
        0 <= i < levels.l0.sub_levels.len() ==> #[trigger] sub_level_valid(
            levels.l0.sub_levels,
            i,
        )
    &&& forall|i: int|
        0 <= i < levels.levels.len() ==> level_valid((i + 1) as u32, #[trigger] levels.levels[i])
}

/// Whether a sub-level is as it should be, and its id is smaller than that of the one in front.
pub open spec fn sub_level_valid(sub_levels: Seq<LevelView>, i: int) -> bool {
    sub_levels[i].sub_level_id < id_in_front(sub_levels, i) && level_valid(0, sub_levels[i])
}

impl VersionView {
    /// Whether the version is as it should be.
    pub open spec fn valid(self) -> bool {
        &&& self.safe_epoch <= self.max_committed_epoch
        &&& forall|g: CompactionGroupId| #[trigger]
            self.levels.dom().contains(g) ==> group_valid(g, self.levels[g])
    }
}

proof fn lemma_no_sst_violations(name: Seq<char>, level: LevelView, n: int)
    requires
        0 <= n <= level.table_infos.len(),
    ensures
        first_sst_violations(name, level, n).len() == 0 <==> forall|i: int|
            0 <= i < n ==> #[trigger] sst_valid(level, i),
    decreases n,
{
    if n > 0 {
        lemma_no_sst_violations(name, level, n - 1);
        assert(sst_violations(name, level, n - 1).len() == 0 <==> sst_valid(level, n - 1));
    }
}

proof fn lemma_no_level_violations(
    group_id: CompactionGroupId,
    expected: u32,
    level: LevelView,
)
    ensures
        level_violations(group_id, expected, level).len() == 0 <==> level_valid(expected, level),
{
    reveal(level_violations);
    lemma_no_sst_violations(
        level_name(group_id, level),
        level,
        level.table_infos.len() as int,
    );
}

proof fn lemma_no_sub_level_violations(
    group_id: CompactionGroupId,
    sub_levels: Seq<LevelView>,
    n: int,
)
    requires
        0 <= n <= sub_levels.len(),
    ensures
        first_sub_level_violations(group_id, sub_levels, n).len() == 0 <==> forall|i: int|
            0 <= i < n ==> #[trigger] sub_level_valid(sub_levels, i),
    decreases n,
{
    if n > 0 {
        lemma_no_sub_level_violations(group_id, sub_levels, n - 1);
        lemma_no_level_violations(group_id, 0, sub_levels[n - 1]);
        assert(sub_level_violations(group_id, sub_levels, n - 1).len() == 0 <==> sub_level_valid(
            sub_levels,
            n - 1,
        ));
    }
}

proof fn lemma_no_upper_violations(
    group_id: CompactionGroupId,
    levels: Seq<LevelView>,
    n: int,
)
    requires
        0 <= n <= levels.len(),
    ensures
        first_level_violations(group_id, levels, n).len() == 0 <==> forall|i: int|
            0 <= i < n ==> level_valid((i + 1) as u32, #[trigger] levels[i]),
    decreases n,
{
    if n > 0 {
        lemma_no_upper_violations(group_id, levels, n - 1);
        lemma_no_level_violations(group_id, n as u32, levels[n - 1]);
        lemma_first_levels_next(group_id, levels, n);
        if first_level_violations(group_id, levels, n).len() == 0 {
            assert(level_valid(n as u32, levels[n - 1]));
            assert forall|i: int| 0 <= i < n implies level_valid(
                (i + 1) as u32,
                #[trigger] levels[i],
            ) by {
                if i == n - 1 {
                    assert(level_valid(n as u32, levels[n - 1]));
                }
            }
        }
        if forall|i: int| 0 <= i < n ==> level_valid((i + 1) as u32, #[trigger] levels[i]) {
            assert(level_valid(((n - 1) + 1) as u32, levels[n - 1]));
        }
    }
}

/// No violation is listed for a group if and only if the group is as it should be.
pub proof fn no_violations_if_group_valid(group_id: CompactionGroupId, levels: LevelsView)
    ensures
        group_violations(group_id, levels).len() == 0 <==> group_valid(group_id, levels),
{
    lemma_no_sub_level_violations(
        group_id,
        levels.l0.sub_levels,
        levels.l0.sub_levels.len() as int,
    );
    lemma_no_upper_violations(group_id, levels.levels, levels.levels.len() as int);
}

proof fn lemma_gather_empty<K, A>(keys: Seq<K>, part: spec_fn(K) -> Seq<A>)
    ensures
        gather(keys, part).len() == 0 <==> forall|i: int|
            0 <= i < keys.len() ==> part(#[trigger] keys[i]).len() == 0,
    decreases keys.len(),
{
    if keys.len() > 0 {
        let t = keys.drop_last();
        lemma_gather_empty(t, part);
        if gather(keys, part).len() == 0 {
            assert forall|i: int| 0 <= i < keys.len() implies part(#[trigger] keys[i]).len()
                == 0 by {
                if i < t.len() {
                    assert(part(t[i]).len() == 0);
                }
            }
        }
        if forall|i: int| 0 <= i < keys.len() ==> part(#[trigger] keys[i]).len() == 0 {
            assert forall|i: int| 0 <= i < t.len() implies part(#[trigger] t[i]).len() == 0 by {
                assert(part(keys[i]).len() == 0);
            }
            assert(part(keys[keys.len() - 1]).len() == 0);
        }
    }
}

/// No violation is listed for a version if and only if the version is as it should be, in whatever
/// order its groups are met.
pub proof fn no_violations_if_valid(version: VersionView, order: Seq<CompactionGroupId>)
    requires
        is_walk(order, version.levels.dom()),
    ensures
        version.violations(order).len() == 0 <==> version.valid(),
{
    let part = version.violations_of();
    lemma_gather_empty(order, part);
    if version.violations(order).len() == 0 {
        assert forall|g: CompactionGroupId| #[trigger]
            version.levels.dom().contains(g) implies group_valid(g, version.levels[g]) by {
            assert(order.to_set().contains(g));
            let i = choose|i: int| 0 <= i < order.len() && order[i] == g;
            assert(part(order[i]).len() == 0);
            no_violations_if_group_valid(g, version.levels[g]);
        }
    }
    if version.valid() {
        assert forall|i: int| 0 <= i < order.len() implies part(#[trigger] order[i]).len() == 0 by {
            assert(order.to_set().contains(order[i]));
            no_violations_if_group_valid(order[i], version.levels[order[i]]);
        }
    }
}

/// The levels of a new group are as they should be.
pub proof fn initial_levels_are_valid(group_id: CompactionGroupId, max_level: u64)
    requires
        max_level <= u32::MAX,
    ensures
        group_valid(group_id, LevelsView::initial(group_id, max_level)),
{
    let levels = LevelsView::initial(group_id, max_level);
    assert forall|i: int| 0 <= i < levels.levels.len() implies level_valid(
        (i + 1) as u32,
        #[trigger] levels.levels[i],
    ) by {
        assert(0 < i + 1 <= u32::MAX);
    }
}

} // verus!
