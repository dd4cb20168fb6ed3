//! Showing a trace on another axis, with the documents already in hand.

use crate::order::{
    arrange, arranged, arranged_apart, arranged_in_order, arranged_is_permutation,
    arranged_when_in_order, ascending_once, distinct, distinct_is_ascending, distinct_of,
    is_order, same_items,
};
use crate::services::blocks::{Block, BlockView};
use crate::services::document::{lookup_text, text_at};
use crate::services::paths::{leaf, names};
use crate::services::trace::{
    all_blocks, all_blocks_of_arranged, by_path, by_path_is_order, by_time, sort_lanes, Lane,
    LaneState, LaneView, Trace, TraceView,
};
use crate::text::{concat, copies, join, joined, same, Text};
use crate::text_set::ascending_has_no_duplicates;
use vstd::prelude::*;

verus! {

/// Whether the query behind a lane failed.
pub open spec fn has_failed(lane: LaneView) -> bool {
    lane.state is Failed
}

/// Those of `lanes` whose query failed.
pub open spec fn failed_lanes(lanes: Seq<LaneView>) -> Seq<LaneView>
    decreases lanes.len(),
{
    if lanes.len() == 0 {
        Seq::empty()
    } else if has_failed(lanes.last()) {
        failed_lanes(lanes.drop_last()).push(lanes.last())
    } else {
        failed_lanes(lanes.drop_last())
    }
}

/// The blocks of those of `lanes` whose query did not fail.
pub open spec fn answered_blocks(lanes: Seq<LaneView>) -> Seq<BlockView>
    decreases lanes.len(),
{
    if lanes.len() == 0 {
        Seq::empty()
    } else if has_failed(lanes.last()) {
        answered_blocks(lanes.drop_last())
    } else {
        answered_blocks(lanes.drop_last()) + lanes.last().blocks
    }
}

/// Whether some of `lanes` whose query did not fail hold only part of what there
/// is. What is not shown could belong to any stage.
pub open spec fn is_cut_short(lanes: Seq<LaneView>) -> bool {
    exists|i: int| 0 <= i < lanes.len() && !has_failed(#[trigger] lanes[i]) && lanes[i].truncated
}

/// The lane of documents that have no value in the lane field.
pub open spec fn unlabelled(lane_field: Text) -> Text {
    "(no "@ + names(lane_field).last() + ")"@
}

/// The lane that a block belongs to when lanes are values of `lane_field`.
pub open spec fn stage_of(block: BlockView, lane_field: Text) -> Text {
    match text_at(block.doc, lane_field) {
        Some(text) => text,
        None => unlabelled(lane_field),
    }
}

/// The lanes that `blocks` belong to.
pub open spec fn stages_of(blocks: Seq<BlockView>, lane_field: Text) -> Seq<Text> {
    Seq::new(blocks.len(), |i: int| stage_of(blocks[i], lane_field))
}

/// Those of `blocks` that belong to the lane `name`.
pub open spec fn blocks_at(blocks: Seq<BlockView>, lane_field: Text, name: Text) -> Seq<BlockView>
    decreases blocks.len(),
{
    if blocks.len() == 0 {
        Seq::empty()
    } else if stage_of(blocks.last(), lane_field) == name {
        blocks_at(blocks.drop_last(), lane_field, name).push(blocks.last())
    } else {
        blocks_at(blocks.drop_last(), lane_field, name)
    }
}

/// Where `blocks` live.
pub open spec fn sources_of(blocks: Seq<BlockView>) -> Seq<Text> {
    Seq::new(blocks.len(), |i: int| blocks[i].container)
}

/// The lane `name` with these blocks, which may not be all there are.
pub open spec fn stage_lane(name: Text, blocks: Seq<BlockView>, truncated: bool) -> LaneView {
    let sorted = arranged(blocks, by_time());
    LaneView {
        name,
        detail: if blocks.len() == 0 {
            None
        } else {
            Some(joined(distinct(sources_of(sorted)), ", "@))
        },
        blocks: sorted,
        state: if blocks.len() == 0 {
            LaneState::Awaiting
        } else {
            LaneState::Reached
        },
        error: None,
        truncated,
    }
}

/// The lanes there are when lanes are values of `lane_field`: those that are
/// expected, and those that some block belongs to.
pub open spec fn stage_names(
    blocks: Seq<BlockView>,
    lane_field: Text,
    expected: Seq<Text>,
) -> Seq<Text> {
    distinct(expected + stages_of(blocks, lane_field))
}

/// Container lanes made into lanes of the values of `lane_field`, and behind
/// them the lanes whose query failed.
pub open spec fn regrouped(
    lanes: Seq<LaneView>,
    lane_field: Text,
    expected: Seq<Text>,
) -> Seq<LaneView> {
    let blocks = answered_blocks(lanes);
    let stages = stage_names(blocks, lane_field, expected);
    Seq::new(
        stages.len(),
        |i: int|
            stage_lane(
                stages[i],
                blocks_at(blocks, lane_field, stages[i]),
                is_cut_short(lanes),
            ),
    ) + failed_lanes(lanes)
}

/// A trace shown on the axis `lane_field`; the empty text stands for the
/// containers themselves.
pub open spec fn relaned(base: TraceView, lane_field: Text, expected: Seq<Text>) -> TraceView {
    if lane_field.len() == 0 {
        base
    } else {
        TraceView {
            lanes: arranged(regrouped(base.lanes, lane_field, expected), by_path()),
            ..base
        }
    }
}

fn lane_failed(lane: &Lane) -> (r: bool)
    ensures
        r == has_failed(lane@),
{
    match lane.state {
        LaneState::Failed(_) => true,
        _ => false,
    }
}

fn find_cut_short(lanes: &Vec<Lane>) -> (r: bool)
    ensures
        r == is_cut_short(lanes.deep_view()),
{
    let ghost all = lanes.deep_view();
    let mut i: usize = 0;
    while i < lanes.len()
        invariant
            all == lanes.deep_view(),
            i <= lanes@.len(),
            forall|j: int| 0 <= j < i ==> has_failed(#[trigger] all[j]) || !all[j].truncated,
        decreases lanes.len() - i,
    {
        assert(all[i as int] == lanes@[i as int]@);
        if !lane_failed(&lanes[i]) && lanes[i].truncated {
            assert(!has_failed(all[i as int]) && all[i as int].truncated);
            return true;
        }
        i = i + 1;
    }
    false
}

fn find_stage(block: &Block, lane_field: &str, unlabelled: &str) -> (out: String)
    requires
        unlabelled@ == self::unlabelled(lane_field@),
    ensures
        out@ == stage_of(block@, lane_field@),
{
    match lookup_text(&block.doc, lane_field) {
        Some(text) => text,
        None => unlabelled.to_owned(),
    }
}

fn find_answered(lanes: &Vec<Lane>) -> (out: Vec<Block>)
    ensures
        out.deep_view() == answered_blocks(lanes.deep_view()),
{
    let ghost all = lanes.deep_view();
    let mut out: Vec<Block> = Vec::new();
    let mut i: usize = 0;
    assert(out.deep_view() =~= Seq::<BlockView>::empty());
    while i < lanes.len()
        invariant
            all == lanes.deep_view(),
            i <= lanes@.len(),
            out.deep_view() == answered_blocks(all.take(i as int)),
        decreases lanes.len() - i,
    {
        let lane = &lanes[i];
        assert(all.take(i + 1).drop_last() =~= all.take(i as int));
        assert(all.take(i + 1).last() == lane@);
        if !lane_failed(lane) {
            let ghost before = out.deep_view();
            let ghost blocks = lane.blocks.deep_view();
            let mut k: usize = 0;
            assert(before + blocks.take(0) =~= before);
            while k < lane.blocks.len()
                invariant
                    blocks == lane.blocks.deep_view(),
                    k <= lane.blocks@.len(),
                    out.deep_view() == before + blocks.take(k as int),
                decreases lane.blocks.len() - k,
            {
                let ghost here = out.deep_view();
                let block = lane.blocks[k].clone();
                let ghost view = block@;
                out.push(block);
                assert(out.deep_view() =~= here.push(view));
                assert(out.deep_view() =~= before + blocks.take(k + 1));
                k = k + 1;
            }
            assert(blocks.take(k as int) =~= blocks);
        }
        i = i + 1;
    }
    assert(all.take(i as int) =~= all);
    out
}

fn build_stage(
    blocks: &Vec<Block>,
    lane_field: &str,
    unlabelled: &str,
    name: &str,
    truncated: bool,
) -> (out: Lane)
    requires
        unlabelled@ == self::unlabelled(lane_field@),
    ensures
        out@ == stage_lane(
            name@,
            blocks_at(blocks.deep_view(), lane_field@, name@),
            truncated,
        ),
{
    let ghost all = blocks.deep_view();
    let mut mine: Vec<Block> = Vec::new();
    let mut i: usize = 0;
    assert(mine.deep_view() =~= Seq::<BlockView>::empty());
    while i < blocks.len()
        invariant
            unlabelled@ == self::unlabelled(lane_field@),
            all == blocks.deep_view(),
            i <= blocks@.len(),
            mine.deep_view() == blocks_at(all.take(i as int), lane_field@, name@),
        decreases blocks.len() - i,
    {
        assert(all.take(i + 1).drop_last() =~= all.take(i as int));
        assert(all.take(i + 1).last() == blocks@[i as int]@);
        let stage = find_stage(&blocks[i], lane_field, unlabelled);
        if same(stage.as_str(), name) {
            let ghost before = mine.deep_view();
            let block = blocks[i].clone();
            let ghost view = block@;
            mine.push(block);
            assert(mine.deep_view() =~= before.push(view));
        }
        i = i + 1;
    }
    assert(all.take(i as int) =~= all);
    let ghost own = mine.deep_view();
    proof {
        arranged_is_permutation(own, by_time());
    }
    let sorted = arrange(mine);
    let ghost view = sorted.deep_view();
    let mut sources: Vec<String> = Vec::new();
    let mut k: usize = 0;
    while k < sorted.len()
        invariant
            view == sorted.deep_view(),
            k <= sorted@.len(),
            sources@.len() == k,
            forall|j: int| 0 <= j < k ==> (#[trigger] sources@[j])@ == view[j].container,
        decreases sorted.len() - k,
    {
        assert(view[k as int] == sorted@[k as int]@);
        sources.push(sorted[k].container.clone());
        k = k + 1;
    }
    assert(sources.deep_view() =~= sources_of(view));
    assert(view.len() == sorted@.len());
    if sorted.len() == 0 {
        Lane {
            name: name.to_owned(),
            detail: None,
            blocks: sorted,
            state: LaneState::Awaiting,
            error: None,
            truncated,
        }
    } else {
        let listed = distinct_of(&sources);
        Lane {
            name: name.to_owned(),
            detail: Some(join(&listed, ", ")),
            blocks: sorted,
            state: LaneState::Reached,
            error: None,
            truncated,
        }
    }
}

fn find_stages(
    blocks: &Vec<Block>,
    lane_field: &str,
    unlabelled: &str,
    expected: &Vec<String>,
) -> (out: Vec<String>)
    requires
        unlabelled@ == self::unlabelled(lane_field@),
    ensures
        out.deep_view() == stage_names(blocks.deep_view(), lane_field@, expected.deep_view()),
{
    let ghost all = blocks.deep_view();
    let ghost first = expected.deep_view();
    let mut listed = copies(expected);
    let mut i: usize = 0;
    assert(first + stages_of(all, lane_field@).take(0) =~= first);
    while i < blocks.len()
        invariant
            unlabelled@ == self::unlabelled(lane_field@),
            all == blocks.deep_view(),
            i <= blocks@.len(),
            listed.deep_view() == first + stages_of(all, lane_field@).take(i as int),
        decreases blocks.len() - i,
    {
        let ghost before = listed.deep_view();
        let stage = find_stage(&blocks[i], lane_field, unlabelled);
        let ghost view = stage@;
        listed.push(stage);
        assert(listed.deep_view() =~= before.push(view));
        assert(all[i as int] == blocks@[i as int]@);
        assert(listed.deep_view() =~= first + stages_of(all, lane_field@).take(i + 1));
        i = i + 1;
    }
    assert(stages_of(all, lane_field@).take(i as int) =~= stages_of(all, lane_field@));
    distinct_of(&listed)
}

/// Rebuilds container lanes into lanes of `lane_field`'s values.
///
/// Every stage we know about is there, whether or not this value reached it. A
/// stage the sampling never saw cannot appear, which is exactly why
/// `expected_lanes` is worth carrying. Containers whose query failed stay as
/// their own lanes: an error must not be silently folded into "nothing here".
pub fn regroup(container_lanes: &Vec<Lane>, lane_field: &str, expected_lanes: &Vec<String>) -> (out:
    Vec<Lane>)
    ensures
        out.deep_view() == regrouped(
            container_lanes.deep_view(),
            lane_field@,
            expected_lanes.deep_view(),
        ),
{
    let ghost all = container_lanes.deep_view();
    let last = leaf(lane_field);
    let front = concat("(no ", last.as_str());
    let unlabelled = concat(front.as_str(), ")");
    let blocks = find_answered(container_lanes);
    let truncated = find_cut_short(container_lanes);
    let ghost answered = blocks.deep_view();
    let stages = find_stages(&blocks, lane_field, unlabelled.as_str(), expected_lanes);
    let ghost named = stages.deep_view();
    let ghost want = Seq::new(
        named.len(),
        |i: int| stage_lane(named[i], blocks_at(answered, lane_field@, named[i]), truncated),
    );
    let mut out: Vec<Lane> = Vec::new();
    let mut i: usize = 0;
    while i < stages.len()
        invariant
            unlabelled@ == self::unlabelled(lane_field@),
            answered == blocks.deep_view(),
            named == stages.deep_view(),
            want == Seq::new(
                named.len(),
                |i: int| stage_lane(named[i], blocks_at(answered, lane_field@, named[i]), truncated),
            ),
            i <= stages@.len(),
            out@.len() == i,
            forall|j: int| 0 <= j < i ==> (#[trigger] out@[j])@ == want[j],
        decreases stages.len() - i,
    {
        assert(named[i as int] == stages@[i as int]@);
        out.push(
            build_stage(&blocks, lane_field, unlabelled.as_str(), stages[i].as_str(), truncated),
        );
        i = i + 1;
    }
    assert(out.deep_view() =~= want);
    let mut k: usize = 0;
    assert(want + failed_lanes(all.take(0)) =~= want);
    while k < container_lanes.len()
        invariant
            all == container_lanes.deep_view(),
            k <= container_lanes@.len(),
            out.deep_view() == want + failed_lanes(all.take(k as int)),
        decreases container_lanes.len() - k,
    {
        let lane = &container_lanes[k];
        assert(all.take(k + 1).drop_last() =~= all.take(k as int));
        assert(all.take(k + 1).last() == lane@);
        if lane_failed(lane) {
            let ghost before = out.deep_view();
            out.push(lane.clone());
            assert(out.deep_view() =~= before.push(lane@));
            assert(out.deep_view() =~= want + failed_lanes(all.take(k + 1)));
        }
        k = k + 1;
    }
    assert(all.take(k as int) =~= all);
    out
}

/// Re-expresses a trace on a different axis, without asking anything again.
///
/// The documents are already in hand, so switching between "one lane per
/// container" and "one lane per workflow name" is a pure transformation of
/// what's on screen. `lane_field` empty gives the container lanes back
/// unchanged, so the choice is reversible.
pub fn relane(base: &Trace, lane_field: &str, expected_lanes: &Vec<String>) -> (out: Trace)
    ensures
        out@ == relaned(base@, lane_field@, expected_lanes.deep_view()),
{
    if lane_field.is_empty() {
        return base.clone();
    }
    let lanes = regroup(&base.lanes, lane_field, expected_lanes);
    Trace {
        value: base.value.clone(),
        key_label: base.key_label.clone(),
        lanes: sort_lanes(lanes),
        span: base.span,
        blocks_found: base.blocks_found,
    }
}

// ── What holds whatever the axis ─────────────────────────────────────────

proof fn blocks_at_count(blocks: Seq<BlockView>, lane_field: Text, name: Text, b: BlockView)
    ensures
        blocks_at(blocks, lane_field, name).to_multiset().count(b) == (if stage_of(b, lane_field)
            == name {
            blocks.to_multiset().count(b)
        } else {
            0
        }),
    decreases blocks.len(),
{
    broadcast use vstd::seq_lib::group_to_multiset_ensures;

    if blocks.len() > 0 {
        blocks_at_count(blocks.drop_last(), lane_field, name, b);
        assert(blocks =~= blocks.drop_last().push(blocks.last()));
    }
}

spec fn stage_lanes(
    blocks: Seq<BlockView>,
    lane_field: Text,
    stages: Seq<Text>,
    truncated: bool,
) -> Seq<LaneView> {
    Seq::new(
        stages.len(),
        |i: int| stage_lane(stages[i], blocks_at(blocks, lane_field, stages[i]), truncated),
    )
}

proof fn stage_lanes_count(
    blocks: Seq<BlockView>,
    lane_field: Text,
    stages: Seq<Text>,
    truncated: bool,
    b: BlockView,
)
    requires
        stages.no_duplicates(),
    ensures
        all_blocks(stage_lanes(blocks, lane_field, stages, truncated)).to_multiset().count(b) == (
        if stages.contains(stage_of(b, lane_field)) {
            blocks.to_multiset().count(b)
        } else {
            0
        }),
    decreases stages.len(),
{
    broadcast use vstd::seq_lib::group_to_multiset_ensures;

    let lanes = stage_lanes(blocks, lane_field, stages, truncated);
    let stage = stage_of(b, lane_field);
    if stages.len() > 0 {
        let front = stages.drop_last();
        let last = stages.last();
        stage_lanes_count(blocks, lane_field, front, truncated, b);
        assert(lanes.drop_last() =~= stage_lanes(blocks, lane_field, front, truncated));
        let own = blocks_at(blocks, lane_field, last);
        blocks_at_count(blocks, lane_field, last, b);
        arranged_is_permutation(own, by_time());
        vstd::seq_lib::lemma_multiset_commutative(
            all_blocks(lanes.drop_last()),
            lanes.last().blocks,
        );
        assert(stages =~= front.push(last));
        if front.contains(stage) {
            let k = choose|k: int| 0 <= k < front.len() && front[k] == stage;
            assert(stages[k] == stage);
            assert(stages[k] != stages[stages.len() - 1]);
        }
        if stages.contains(stage) {
            let k = choose|k: int| 0 <= k < stages.len() && stages[k] == stage;
            if k < front.len() {
                assert(front[k] == stage);
            }
        }
        if stage == last {
            assert(stages[stages.len() - 1] == stage);
        }
    }
}

proof fn stages_hold_every_block(
    blocks: Seq<BlockView>,
    lane_field: Text,
    expected: Seq<Text>,
    truncated: bool,
)
    ensures
        all_blocks(
            stage_lanes(blocks, lane_field, stage_names(blocks, lane_field, expected), truncated),
        ).to_multiset() == blocks.to_multiset(),
{
    broadcast use vstd::seq_lib::group_to_multiset_ensures;

    let both = expected + stages_of(blocks, lane_field);
    let stages = stage_names(blocks, lane_field, expected);
    let held = all_blocks(stage_lanes(blocks, lane_field, stages, truncated));
    distinct_is_ascending(both);
    ascending_has_no_duplicates(stages);
    assert forall|b: BlockView|
        held.to_multiset().count(b) == blocks.to_multiset().count(b) by {
        stage_lanes_count(blocks, lane_field, stages, truncated, b);
        if blocks.to_multiset().count(b) > 0 {
            assert(blocks.contains(b));
            let k = choose|k: int| 0 <= k < blocks.len() && blocks[k] == b;
            assert(both[expected.len() + k] == stage_of(b, lane_field));
            assert(both.contains(stage_of(b, lane_field)));
            assert(stages.contains(stage_of(b, lane_field)));
        }
    }
    assert(held.to_multiset() =~= blocks.to_multiset());
}

proof fn all_blocks_add_up(a: Seq<LaneView>, b: Seq<LaneView>)
    ensures
        all_blocks(a + b) == all_blocks(a) + all_blocks(b),
    decreases b.len(),
{
    if b.len() == 0 {
        assert(a + b =~= a);
        assert(all_blocks(a) + all_blocks(b) =~= all_blocks(a));
    } else {
        assert((a + b).drop_last() =~= a + b.drop_last());
        all_blocks_add_up(a, b.drop_last());
        assert(all_blocks(a + b) =~= all_blocks(a) + all_blocks(b));
    }
}

proof fn lanes_fall_in_two(lanes: Seq<LaneView>)
    ensures
        all_blocks(lanes).to_multiset() == answered_blocks(lanes).to_multiset().add(
            all_blocks(failed_lanes(lanes)).to_multiset(),
        ),
    decreases lanes.len(),
{
    broadcast use vstd::seq_lib::group_to_multiset_ensures;

    let answered = answered_blocks(lanes);
    let failed = failed_lanes(lanes);
    if lanes.len() > 0 {
        let front = lanes.drop_last();
        let own = lanes.last().blocks;
        lanes_fall_in_two(front);
        vstd::seq_lib::lemma_multiset_commutative(all_blocks(front), own);
        if has_failed(lanes.last()) {
            assert(failed.drop_last() =~= failed_lanes(front));
            vstd::seq_lib::lemma_multiset_commutative(all_blocks(failed_lanes(front)), own);
        } else {
            vstd::seq_lib::lemma_multiset_commutative(answered_blocks(front), own);
        }
        assert(all_blocks(lanes).to_multiset() =~= answered.to_multiset().add(
            all_blocks(failed).to_multiset(),
        ));
    } else {
        assert(all_blocks(lanes).to_multiset() =~= answered.to_multiset().add(
            all_blocks(failed).to_multiset(),
        ));
    }
}

/// Changing the axis drops no document, adds none and changes none: the same
/// cards are on screen, as often as before.
pub proof fn relaning_keeps_every_block(base: TraceView, lane_field: Text, expected: Seq<Text>)
    ensures
        all_blocks(relaned(base, lane_field, expected).lanes).to_multiset() == all_blocks(
            base.lanes,
        ).to_multiset(),
{
    broadcast use vstd::seq_lib::group_to_multiset_ensures;

    if lane_field.len() > 0 {
        let blocks = answered_blocks(base.lanes);
        let stages = stage_names(blocks, lane_field, expected);
        let truncated = is_cut_short(base.lanes);
        let staged = stage_lanes(blocks, lane_field, stages, truncated);
        let failed = failed_lanes(base.lanes);
        let out = regrouped(base.lanes, lane_field, expected);
        assert(out =~= staged + failed);
        all_blocks_add_up(staged, failed);
        vstd::seq_lib::lemma_multiset_commutative(all_blocks(staged), all_blocks(failed));
        stages_hold_every_block(blocks, lane_field, expected, truncated);
        lanes_fall_in_two(base.lanes);
        all_blocks_of_arranged(out);
        assert(all_blocks(out).to_multiset() =~= all_blocks(base.lanes).to_multiset());
    }
}

/// Changing the axis is reversible: choosing no field shows the trace as it
/// was. Whatever the axis, the value, the key, the span and the number of
/// documents are those of the trace.
pub proof fn relaning_is_reversible(
    base: TraceView,
    lane_field: Text,
    expected: Seq<Text>,
    other: Seq<Text>,
)
    ensures
        relaned(base, Seq::empty(), other) == base,
        ({
            let out = relaned(base, lane_field, expected);
            &&& relaned(out, Seq::empty(), other) == out
            &&& out.value == base.value
            &&& out.key_label == base.key_label
            &&& out.span == base.span
            &&& out.blocks_found == base.blocks_found
        }),
{
}

proof fn failed_lanes_are_there(lanes: Seq<LaneView>, lane: LaneView)
    ensures
        failed_lanes(lanes).contains(lane) <==> lanes.contains(lane) && has_failed(lane),
    decreases lanes.len(),
{
    let failed = failed_lanes(lanes);
    if lanes.len() > 0 {
        let front = lanes.drop_last();
        failed_lanes_are_there(front, lane);
        assert(lanes =~= front.push(lanes.last()));
        if failed.contains(lane) {
            let k = choose|k: int| 0 <= k < failed.len() && failed[k] == lane;
            if k < failed_lanes(front).len() {
                assert(failed_lanes(front)[k] == lane);
                let m = choose|m: int| 0 <= m < front.len() && front[m] == lane;
                assert(lanes[m] == lane);
            } else {
                assert(lanes[lanes.len() - 1] == lane);
            }
        }
        if lanes.contains(lane) && has_failed(lane) {
            let k = choose|k: int| 0 <= k < lanes.len() && lanes[k] == lane;
            if k < front.len() {
                assert(front[k] == lane);
                let m = choose|m: int|
                    0 <= m < failed_lanes(front).len() && failed_lanes(front)[m] == lane;
                assert(failed[m] == lane);
            } else {
                assert(failed[failed.len() - 1] == lane);
            }
        }
    }
}

proof fn blocks_at_belong(blocks: Seq<BlockView>, lane_field: Text, name: Text)
    ensures
        forall|i: int|
            0 <= i < blocks_at(blocks, lane_field, name).len() ==> stage_of(
                #[trigger] blocks_at(blocks, lane_field, name)[i],
                lane_field,
            ) == name,
    decreases blocks.len(),
{
    if blocks.len() > 0 {
        let front = blocks_at(blocks.drop_last(), lane_field, name);
        let all = blocks_at(blocks, lane_field, name);
        blocks_at_belong(blocks.drop_last(), lane_field, name);
        assert forall|i: int| 0 <= i < all.len() implies stage_of(#[trigger] all[i], lane_field)
            == name by {
            if i < front.len() {
                assert(all[i] == front[i]);
            }
        }
    }
}

/// A lane on the axis of a field is one of two things. It is a container whose
/// query failed, just as it was: "could not look" is never shown as "nothing
/// there". Or it is a stage: one that is expected or that some document names;
/// it is reached exactly when it has documents, they are all its own, and it
/// waits otherwise. Where some container holds more documents than were asked
/// for, every stage says that it may not be complete.
pub proof fn lanes_are_stages_or_failures(
    base: TraceView,
    lane_field: Text,
    expected: Seq<Text>,
    lane: LaneView,
)
    requires
        lane_field.len() > 0,
        relaned(base, lane_field, expected).lanes.contains(lane),
    ensures
        ({
            ||| has_failed(lane) && base.lanes.contains(lane)
            ||| {
                &&& expected.contains(lane.name) || stages_of(
                    answered_blocks(base.lanes),
                    lane_field,
                ).contains(lane.name)
                &&& lane.state == (if lane.blocks.len() == 0 {
                    LaneState::Awaiting
                } else {
                    LaneState::Reached
                })
                &&& lane.truncated == is_cut_short(base.lanes)
                &&& forall|i: int|
                    0 <= i < lane.blocks.len() ==> stage_of(#[trigger] lane.blocks[i], lane_field)
                        == lane.name
            }
        }),
{
    let out = regrouped(base.lanes, lane_field, expected);
    arranged_is_permutation(out, by_path());
    same_items(arranged(out, by_path()), out);
    assert(out.contains(lane));
    let k = choose|k: int| 0 <= k < out.len() && out[k] == lane;
    let blocks = answered_blocks(base.lanes);
    let both = expected + stages_of(blocks, lane_field);
    let stages = distinct(both);
    distinct_is_ascending(both);
    if k < stages.len() {
        let own = blocks_at(blocks, lane_field, stages[k]);
        assert(stages.contains(stages[k]));
        assert(both.contains(stages[k]));
        let m = choose|m: int| 0 <= m < both.len() && both[m] == stages[k];
        if m < expected.len() {
            assert(expected[m] == stages[k]);
        } else {
            assert(stages_of(blocks, lane_field)[m - expected.len()] == stages[k]);
        }
        blocks_at_belong(blocks, lane_field, stages[k]);
        arranged_is_permutation(own, by_time());
        same_items(lane.blocks, own);
        assert forall|i: int| 0 <= i < lane.blocks.len() implies stage_of(
            #[trigger] lane.blocks[i],
            lane_field,
        ) == lane.name by {
            assert(lane.blocks.contains(lane.blocks[i]));
            assert(own.contains(lane.blocks[i]));
        }
    } else {
        let failed = failed_lanes(base.lanes);
        assert(failed[k - stages.len()] == lane);
        assert(failed.contains(lane));
        failed_lanes_are_there(base.lanes, lane);
    }
}

/// Nothing known gets lost on the axis of a field: a container whose query
/// failed keeps its lane as it was, and every expected stage has a lane, under
/// which it waits if nothing reached it.
pub proof fn relaning_shows_failures_and_stages(
    base: TraceView,
    lane_field: Text,
    expected: Seq<Text>,
)
    requires
        lane_field.len() > 0,
    ensures
        ({
            let lanes = relaned(base, lane_field, expected).lanes;
            &&& forall|lane: LaneView|
                base.lanes.contains(lane) && has_failed(lane) ==> #[trigger] lanes.contains(lane)
            &&& forall|name: Text| #[trigger]
                expected.contains(name) ==> exists|i: int|
                    0 <= i < lanes.len() && (#[trigger] lanes[i]).name == name && !has_failed(
                        lanes[i],
                    )
        }),
{
    let out = regrouped(base.lanes, lane_field, expected);
    let lanes = arranged(out, by_path());
    assert(relaned(base, lane_field, expected).lanes == lanes);
    arranged_is_permutation(out, by_path());
    same_items(lanes, out);
    let blocks = answered_blocks(base.lanes);
    let both = expected + stages_of(blocks, lane_field);
    let stages = distinct(both);
    distinct_is_ascending(both);
    assert forall|lane: LaneView| base.lanes.contains(lane) && has_failed(
        lane,
    ) implies #[trigger] lanes.contains(lane) by {
        failed_lanes_are_there(base.lanes, lane);
        let failed = failed_lanes(base.lanes);
        let k = choose|k: int| 0 <= k < failed.len() && failed[k] == lane;
        assert(out[stages.len() + k] == lane);
    }
    assert forall|name: Text| #[trigger] expected.contains(name) implies exists|i: int|
        0 <= i < lanes.len() && (#[trigger] lanes[i]).name == name && !has_failed(lanes[i]) by {
        let m = choose|m: int| 0 <= m < expected.len() && expected[m] == name;
        assert(both[m] == name);
        assert(both.contains(name));
        assert(stages.contains(name));
        let k = choose|k: int| 0 <= k < stages.len() && stages[k] == name;
        assert(out.contains(out[k]));
        assert(lanes.contains(out[k]));
        let i = choose|i: int| 0 <= i < lanes.len() && lanes[i] == out[k];
        assert(out[k] == stage_lane(
            stages[k],
            blocks_at(blocks, lane_field, stages[k]),
            is_cut_short(base.lanes),
        ));
        assert(lanes[i].name == name && !has_failed(lanes[i]));
    }
}

proof fn answered_then_failed(a: Seq<LaneView>, b: Seq<LaneView>)
    requires
        forall|i: int| 0 <= i < a.len() ==> !has_failed(#[trigger] a[i]),
        forall|i: int| 0 <= i < b.len() ==> has_failed(#[trigger] b[i]),
    ensures
        failed_lanes(a + b) == b,
        answered_blocks(a + b) == all_blocks(a),
    decreases a.len() + b.len(),
{
    if b.len() > 0 {
        let front = b.drop_last();
        assert forall|i: int| 0 <= i < front.len() implies has_failed(#[trigger] front[i]) by {
            assert(has_failed(b[i]));
        }
        answered_then_failed(a, front);
        assert((a + b).drop_last() =~= a + front);
        assert(has_failed(b[b.len() - 1]));
        assert(front.push(b.last()) =~= b);
    } else if a.len() > 0 {
        let front = a.drop_last();
        assert forall|i: int| 0 <= i < front.len() implies !has_failed(#[trigger] front[i]) by {
            assert(!has_failed(a[i]));
        }
        answered_then_failed(front, b);
        assert(a + b =~= a);
        assert(front + b =~= front);
        assert(!has_failed(a[a.len() - 1]));
    } else {
        assert(failed_lanes(a + b) =~= b);
        assert(answered_blocks(a + b) =~= all_blocks(a));
    }
}

proof fn blocks_at_add_up(a: Seq<BlockView>, b: Seq<BlockView>, lane_field: Text, name: Text)
    ensures
        blocks_at(a + b, lane_field, name) == blocks_at(a, lane_field, name) + blocks_at(
            b,
            lane_field,
            name,
        ),
    decreases b.len(),
{
    let both = blocks_at(a, lane_field, name) + blocks_at(b, lane_field, name);
    if b.len() == 0 {
        assert(a + b =~= a);
        assert(both =~= blocks_at(a, lane_field, name));
    } else {
        assert((a + b).drop_last() =~= a + b.drop_last());
        blocks_at_add_up(a, b.drop_last(), lane_field, name);
        assert(blocks_at(a + b, lane_field, name) =~= both);
    }
}

proof fn blocks_of_one_stage(blocks: Seq<BlockView>, lane_field: Text, own: Text, name: Text)
    requires
        forall|i: int|
            0 <= i < blocks.len() ==> stage_of(#[trigger] blocks[i], lane_field) == own,
    ensures
        blocks_at(blocks, lane_field, name) == (if name == own {
            blocks
        } else {
            Seq::empty()
        }),
    decreases blocks.len(),
{
    if blocks.len() > 0 {
        let front = blocks.drop_last();
        assert forall|i: int| 0 <= i < front.len() implies stage_of(#[trigger] front[i], lane_field)
            == own by {
            assert(stage_of(blocks[i], lane_field) == own);
        }
        blocks_of_one_stage(front, lane_field, own, name);
        assert(stage_of(blocks[blocks.len() - 1], lane_field) == own);
        assert(front.push(blocks.last()) =~= blocks);
    } else {
        assert(blocks =~= Seq::empty());
    }
}

/// Whether each lane holds blocks of its own stage, and no two share a name.
spec fn are_stages(lanes: Seq<LaneView>, lane_field: Text) -> bool {
    &&& forall|i: int, k: int|
        0 <= i < lanes.len() && 0 <= k < lanes[i].blocks.len() ==> stage_of(
            #[trigger] lanes[i].blocks[k],
            lane_field,
        ) == lanes[i].name
    &&& forall|i: int, j: int|
        0 <= i < j < lanes.len() ==> (#[trigger] lanes[i]).name != (#[trigger] lanes[j]).name
}

proof fn stages_give_back_their_blocks(lanes: Seq<LaneView>, lane_field: Text, name: Text)
    requires
        are_stages(lanes, lane_field),
    ensures
        forall|i: int|
            0 <= i < lanes.len() && (#[trigger] lanes[i]).name == name ==> blocks_at(
                all_blocks(lanes),
                lane_field,
                name,
            ) == lanes[i].blocks,
        (forall|i: int| 0 <= i < lanes.len() ==> (#[trigger] lanes[i]).name != name) ==> blocks_at(
            all_blocks(lanes),
            lane_field,
            name,
        ).len() == 0,
    decreases lanes.len(),
{
    if lanes.len() > 0 {
        let front = lanes.drop_last();
        let last = lanes.last();
        let early = blocks_at(all_blocks(front), lane_field, name);
        assert(lanes[lanes.len() - 1] == last);
        assert(are_stages(front, lane_field)) by {
            assert forall|i: int, k: int|
                0 <= i < front.len() && 0 <= k < front[i].blocks.len() implies stage_of(
                #[trigger] front[i].blocks[k],
                lane_field,
            ) == front[i].name by {
                assert(front[i] == lanes[i]);
                assert(stage_of(lanes[i].blocks[k], lane_field) == lanes[i].name);
            }
            assert forall|i: int, j: int| 0 <= i < j < front.len() implies (
            #[trigger] front[i]).name != (#[trigger] front[j]).name by {
                assert(lanes[i].name != lanes[j].name);
            }
        }
        stages_give_back_their_blocks(front, lane_field, name);
        blocks_at_add_up(all_blocks(front), last.blocks, lane_field, name);
        assert forall|k: int| 0 <= k < last.blocks.len() implies stage_of(
            #[trigger] last.blocks[k],
            lane_field,
        ) == last.name by {
            assert(stage_of(lanes[lanes.len() - 1].blocks[k], lane_field) == last.name);
        }
        blocks_of_one_stage(last.blocks, lane_field, last.name, name);
        let own = blocks_at(last.blocks, lane_field, name);
        if last.name == name {
            assert forall|i: int| 0 <= i < front.len() implies (#[trigger] front[i]).name
                != name by {
                assert(lanes[i].name != lanes[lanes.len() - 1].name);
            }
            assert(early + own =~= last.blocks);
        } else {
            assert(early + own =~= early);
            if forall|i: int| 0 <= i < lanes.len() ==> (#[trigger] lanes[i]).name != name {
                assert forall|i: int| 0 <= i < front.len() implies (#[trigger] front[i]).name
                    != name by {
                    assert(lanes[i].name != name);
                }
            }
        }
        assert forall|i: int| 0 <= i < lanes.len() && (#[trigger] lanes[i]).name
            == name implies blocks_at(all_blocks(lanes), lane_field, name) == lanes[i].blocks by {
            if i < front.len() {
                assert(front[i] == lanes[i]);
                if last.name == name {
                    assert(lanes[i].name != lanes[lanes.len() - 1].name);
                }
            }
        }
    }
}

proof fn sorted_stages_are_stages(
    blocks: Seq<BlockView>,
    lane_field: Text,
    stages: Seq<Text>,
    truncated: bool,
)
    requires
        stages.no_duplicates(),
    ensures
        ({
            let staged = stage_lanes(blocks, lane_field, stages, truncated);
            let sorted = arranged(staged, by_path());
            &&& are_stages(sorted, lane_field)
            &&& forall|i: int|
                0 <= i < sorted.len() ==> !has_failed(#[trigger] sorted[i]) && sorted[i].truncated
                    == truncated
            &&& forall|k: int|
                0 <= k < stages.len() ==> sorted.contains(#[trigger] staged[k])
        }),
{
    broadcast use vstd::seq_lib::group_to_multiset_ensures;

    let staged = stage_lanes(blocks, lane_field, stages, truncated);
    let sorted = arranged(staged, by_path());
    arranged_is_permutation(staged, by_path());
    same_items(sorted, staged);
    assert forall|i: int, j: int| 0 <= i < staged.len() && 0 <= j < staged.len() && i
        != j implies staged[i] != staged[j] by {
        assert(stages[i] != stages[j]);
        assert(staged[i].name == stages[i] && staged[j].name == stages[j]);
    }
    staged.lemma_multiset_has_no_duplicates();
    sorted.lemma_multiset_has_no_duplicates_conv();
    assert forall|i: int| 0 <= i < sorted.len() implies staged.contains(#[trigger] sorted[i]) by {
        assert(sorted.contains(sorted[i]));
    }
    assert forall|i: int| 0 <= i < sorted.len() implies !has_failed(#[trigger] sorted[i])
        && sorted[i].truncated == truncated by {
        let k = choose|k: int| 0 <= k < staged.len() && staged[k] == sorted[i];
    }
    assert forall|i: int, k: int|
        0 <= i < sorted.len() && 0 <= k < sorted[i].blocks.len() implies stage_of(
        #[trigger] sorted[i].blocks[k],
        lane_field,
    ) == sorted[i].name by {
        let m = choose|m: int| 0 <= m < staged.len() && staged[m] == sorted[i];
        let own = blocks_at(blocks, lane_field, stages[m]);
        blocks_at_belong(blocks, lane_field, stages[m]);
        arranged_is_permutation(own, by_time());
        same_items(sorted[i].blocks, own);
        assert(sorted[i].blocks.contains(sorted[i].blocks[k]));
        assert(own.contains(sorted[i].blocks[k]));
    }
    assert forall|i: int, j: int| 0 <= i < j < sorted.len() implies (#[trigger] sorted[i]).name
        != (#[trigger] sorted[j]).name by {
        let k = choose|k: int| 0 <= k < staged.len() && staged[k] == sorted[i];
        let m = choose|m: int| 0 <= m < staged.len() && staged[m] == sorted[j];
        assert(sorted[i] != sorted[j]);
        assert(staged[k].name == stages[k] && staged[m].name == stages[m]);
    }
    assert forall|k: int| 0 <= k < stages.len() implies sorted.contains(#[trigger] staged[k]) by {
        assert(staged.contains(staged[k]));
    }
}

proof fn same_stage_again(name: Text, blocks: Seq<BlockView>, truncated: bool)
    ensures
        stage_lane(name, arranged(blocks, by_time()), truncated) == stage_lane(
            name,
            blocks,
            truncated,
        ),
{
    let before = by_time();
    assert forall|a: BlockView, b: BlockView| #[trigger] before(a, b) implies !before(b, a) by {}
    assert forall|a: BlockView, b: BlockView, c: BlockView|
        !#[trigger] before(a, b) && !#[trigger] before(b, c) implies !before(a, c) by {}
    assert(is_order(before));
    arranged_in_order(blocks, before);
    arranged_when_in_order(arranged(blocks, before), before);
    arranged_is_permutation(blocks, before);
}

proof fn same_stages_again(
    blocks: Seq<BlockView>,
    lane_field: Text,
    expected: Seq<Text>,
    truncated: bool,
)
    ensures
        ({
            let stages = stage_names(blocks, lane_field, expected);
            let staged = stage_lanes(blocks, lane_field, stages, truncated);
            let again = all_blocks(arranged(staged, by_path()));
            &&& stage_names(again, lane_field, expected) == stages
            &&& stage_lanes(again, lane_field, stages, truncated) == staged
        }),
{
    let both = expected + stages_of(blocks, lane_field);
    let stages = stage_names(blocks, lane_field, expected);
    let staged = stage_lanes(blocks, lane_field, stages, truncated);
    let sorted = arranged(staged, by_path());
    let again = all_blocks(sorted);
    let both_again = expected + stages_of(again, lane_field);
    stages_hold_every_block(blocks, lane_field, expected, truncated);
    all_blocks_of_arranged(staged);
    same_items(again, blocks);
    distinct_is_ascending(both);
    distinct_is_ascending(both_again);
    assert forall|u: Text| both.contains(u) <==> both_again.contains(u) by {
        named_by_a_block(expected, blocks, again, lane_field, u);
        named_by_a_block(expected, again, blocks, lane_field, u);
    }
    assert forall|u: Text| distinct(both_again).contains(u) <==> stages.contains(u) by {
        assert(both.contains(u) <==> both_again.contains(u));
    }
    ascending_once(distinct(both_again), stages);
    ascending_has_no_duplicates(stages);
    sorted_stages_are_stages(blocks, lane_field, stages, truncated);
    assert forall|k: int| 0 <= k < stages.len() implies stage_lanes(again, lane_field, stages, truncated)[k]
        == #[trigger] staged[k] by {
        let own = blocks_at(blocks, lane_field, stages[k]);
        assert(sorted.contains(staged[k]));
        let i = choose|i: int| 0 <= i < sorted.len() && sorted[i] == staged[k];
        stages_give_back_their_blocks(sorted, lane_field, stages[k]);
        assert(sorted[i].name == stages[k]);
        assert(blocks_at(again, lane_field, stages[k]) == arranged(own, by_time()));
        same_stage_again(stages[k], own, truncated);
    }
    assert(stage_lanes(again, lane_field, stages, truncated) =~= staged);
}

proof fn named_by_a_block(
    expected: Seq<Text>,
    blocks: Seq<BlockView>,
    others: Seq<BlockView>,
    lane_field: Text,
    name: Text,
)
    requires
        forall|b: BlockView| #[trigger] blocks.contains(b) ==> others.contains(b),
    ensures
        (expected + stages_of(blocks, lane_field)).contains(name) ==> (expected + stages_of(
            others,
            lane_field,
        )).contains(name),
{
    let both = expected + stages_of(blocks, lane_field);
    let all = expected + stages_of(others, lane_field);
    if both.contains(name) {
        let k = choose|k: int| 0 <= k < both.len() && both[k] == name;
        if k < expected.len() {
            assert(all[k] == name);
        } else {
            let b = blocks[k - expected.len()];
            assert(blocks.contains(b));
            let m = choose|m: int| 0 <= m < others.len() && others[m] == b;
            assert(all[expected.len() + m] == name);
        }
    }
}

/// Changing to the axis a trace is shown on changes nothing: the lanes of a
/// field, made into lanes of that field again, are what they were.
pub proof fn relaning_again_changes_nothing(base: TraceView, lane_field: Text, expected: Seq<Text>)
    ensures
        relaned(relaned(base, lane_field, expected), lane_field, expected) == relaned(
            base,
            lane_field,
            expected,
        ),
{
    if lane_field.len() > 0 {
        let before = by_path();
        let blocks = answered_blocks(base.lanes);
        let stages = stage_names(blocks, lane_field, expected);
        let truncated = is_cut_short(base.lanes);
        let staged = stage_lanes(blocks, lane_field, stages, truncated);
        let failed = failed_lanes(base.lanes);
        let first = arranged(staged, before);
        let rest = arranged(failed, before);
        assert(regrouped(base.lanes, lane_field, expected) =~= staged + failed);
        assert forall|i: int| 0 <= i < failed.len() implies has_failed(#[trigger] failed[i]) by {
            assert(failed.contains(failed[i]));
            failed_lanes_are_there(base.lanes, failed[i]);
        }
        arranged_apart(staged, failed, before);
        by_path_is_order();
        arranged_in_order(failed, before);
        arranged_is_permutation(failed, before);
        same_items(rest, failed);
        assert forall|i: int| 0 <= i < rest.len() implies has_failed(#[trigger] rest[i]) by {
            assert(rest.contains(rest[i]));
            assert(failed.contains(rest[i]));
        }
        distinct_is_ascending(expected + stages_of(blocks, lane_field));
        ascending_has_no_duplicates(stages);
        sorted_stages_are_stages(blocks, lane_field, stages, truncated);
        answered_then_failed(first, rest);
        same_stages_again(blocks, lane_field, expected, truncated);
        arranged_is_permutation(staged, before);
        if stages.len() > 0 {
            let lanes = first + rest;
            if truncated {
                assert(!has_failed(lanes[0]) && lanes[0].truncated) by {
                    assert(lanes[0] == first[0]);
                }
            }
            assert(is_cut_short(lanes) == truncated) by {
                if is_cut_short(lanes) {
                    let i = choose|i: int|
                        0 <= i < lanes.len() && !has_failed(#[trigger] lanes[i])
                            && lanes[i].truncated;
                    if i < first.len() {
                        assert(lanes[i] == first[i]);
                    } else {
                        assert(lanes[i] == rest[i - first.len()]);
                    }
                }
            }
        }
        assert(regrouped(first + rest, lane_field, expected) =~= staged + rest);
        arranged_apart(staged, rest, before);
        arranged_when_in_order(rest, before);
    }
}

// ── Where a document stands ──────────────────────────────────────────────

proof fn blocks_at_hold(blocks: Seq<BlockView>, lane_field: Text, b: BlockView)
    requires
        blocks.contains(b),
    ensures
        blocks_at(blocks, lane_field, stage_of(b, lane_field)).contains(b),
    decreases blocks.len(),
{
    let name = stage_of(b, lane_field);
    let front = blocks.drop_last();
    let all = blocks_at(blocks, lane_field, name);
    let k = choose|k: int| 0 <= k < blocks.len() && blocks[k] == b;
    if k < front.len() {
        assert(front[k] == b);
        blocks_at_hold(front, lane_field, b);
        let early = blocks_at(front, lane_field, name);
        let m = choose|m: int| 0 <= m < early.len() && early[m] == b;
        assert(all[m] == b);
    } else {
        assert(all[all.len() - 1] == b);
    }
}

proof fn answered_blocks_hold(lanes: Seq<LaneView>, i: int, k: int)
    requires
        0 <= i < lanes.len(),
        !has_failed(lanes[i]),
        0 <= k < lanes[i].blocks.len(),
    ensures
        answered_blocks(lanes).contains(lanes[i].blocks[k]),
    decreases lanes.len(),
{
    let front = lanes.drop_last();
    let all = answered_blocks(lanes);
    let early = answered_blocks(front);
    let b = lanes[i].blocks[k];
    if i < front.len() {
        assert(front[i] == lanes[i]);
        answered_blocks_hold(front, i, k);
        let m = choose|m: int| 0 <= m < early.len() && early[m] == b;
        assert(all[m] == b);
    } else {
        assert(all[early.len() + k] == b);
    }
}

/// The lane in which a document of a container that answered stands on the axis
/// of a field. It is called by the document's own value at that field, the whole
/// of it; by the field's name where the document has none. It is reached, and
/// holds the document as it was.
pub proof fn documents_stand_under_their_value(
    base: TraceView,
    lane_field: Text,
    expected: Seq<Text>,
    i: int,
    k: int,
)
    requires
        lane_field.len() > 0,
        0 <= i < base.lanes.len(),
        !(base.lanes[i].state is Failed),
        0 <= k < base.lanes[i].blocks.len(),
    ensures
        ({
            let block = base.lanes[i].blocks[k];
            let lanes = relaned(base, lane_field, expected).lanes;
            exists|n: int|
                0 <= n < lanes.len() && (#[trigger] lanes[n]).blocks.contains(block)
                    && lanes[n].state == LaneState::Reached && lanes[n].name == (match text_at(
                    block.doc,
                    lane_field,
                ) {
                    Some(text) => text,
                    None => "(no "@ + names(lane_field).last() + ")"@,
                })
        }),
{
    let block = base.lanes[i].blocks[k];
    let blocks = answered_blocks(base.lanes);
    let both = expected + stages_of(blocks, lane_field);
    let stages = stage_names(blocks, lane_field, expected);
    let out = regrouped(base.lanes, lane_field, expected);
    let lanes = arranged(out, by_path());
    let name = stage_of(block, lane_field);
    answered_blocks_hold(base.lanes, i, k);
    let m = choose|m: int| 0 <= m < blocks.len() && blocks[m] == block;
    assert(both[expected.len() + m] == name);
    assert(both.contains(name));
    distinct_is_ascending(both);
    assert(stages.contains(name));
    let s = choose|s: int| 0 <= s < stages.len() && stages[s] == name;
    let own = blocks_at(blocks, lane_field, name);
    blocks_at_hold(blocks, lane_field, block);
    arranged_is_permutation(own, by_time());
    same_items(arranged(own, by_time()), own);
    assert(out[s].blocks.contains(block));
    assert(own.len() > 0);
    arranged_is_permutation(out, by_path());
    same_items(lanes, out);
    assert(out.contains(out[s]));
    assert(lanes.contains(out[s]));
    let n = choose|n: int| 0 <= n < lanes.len() && lanes[n] == out[s];
    assert(relaned(base, lane_field, expected).lanes == lanes);
    assert(lanes[n].state == LaneState::Reached && lanes[n].name == name);
    assert(relaned(base, lane_field, expected).lanes[n].blocks.contains(block));
}

proof fn stages_stand_once(
    base: TraceView,
    lane_field: Text,
    expected: Seq<Text>,
    m: int,
    n: int,
)
    requires
        lane_field.len() > 0,
        0 <= m < n < relaned(base, lane_field, expected).lanes.len(),
        !has_failed(relaned(base, lane_field, expected).lanes[m]),
        !has_failed(relaned(base, lane_field, expected).lanes[n]),
    ensures
        relaned(base, lane_field, expected).lanes[m].name != relaned(
            base,
            lane_field,
            expected,
        ).lanes[n].name,
{
    let before = by_path();
    let blocks = answered_blocks(base.lanes);
    let stages = stage_names(blocks, lane_field, expected);
    let truncated = is_cut_short(base.lanes);
    let staged = stage_lanes(blocks, lane_field, stages, truncated);
    let failed = failed_lanes(base.lanes);
    let first = arranged(staged, before);
    let rest = arranged(failed, before);
    assert(regrouped(base.lanes, lane_field, expected) =~= staged + failed);
    assert forall|i: int| 0 <= i < failed.len() implies has_failed(#[trigger] failed[i]) by {
        assert(failed.contains(failed[i]));
        failed_lanes_are_there(base.lanes, failed[i]);
    }
    arranged_apart(staged, failed, before);
    arranged_is_permutation(failed, before);
    same_items(rest, failed);
    assert forall|i: int| 0 <= i < rest.len() implies has_failed(#[trigger] rest[i]) by {
        assert(rest.contains(rest[i]));
        assert(failed.contains(rest[i]));
    }
    distinct_is_ascending(expected + stages_of(blocks, lane_field));
    ascending_has_no_duplicates(stages);
    sorted_stages_are_stages(blocks, lane_field, stages, truncated);
    let lanes = first + rest;
    assert(relaned(base, lane_field, expected).lanes == lanes);
    if n >= first.len() {
        assert(lanes[n] == rest[n - first.len()]);
    }
    if m >= first.len() {
        assert(lanes[m] == rest[m - first.len()]);
    }
    assert(lanes[m] == first[m] && lanes[n] == first[n]);
}

/// A stage waits only where nothing reached it: no document of a container that
/// answered has its name as the value of the field.
pub proof fn stages_wait_only_where_nothing_arrived(
    base: TraceView,
    lane_field: Text,
    expected: Seq<Text>,
    n: int,
    i: int,
    k: int,
)
    requires
        lane_field.len() > 0,
        0 <= n < relaned(base, lane_field, expected).lanes.len(),
        relaned(base, lane_field, expected).lanes[n].state == LaneState::Awaiting,
        0 <= i < base.lanes.len(),
        !(base.lanes[i].state is Failed),
        0 <= k < base.lanes[i].blocks.len(),
    ensures
        text_at(base.lanes[i].blocks[k].doc, lane_field) != Some(
            relaned(base, lane_field, expected).lanes[n].name,
        ),
        relaned(base, lane_field, expected).lanes[n].blocks.len() == 0,
{
    let lanes = relaned(base, lane_field, expected).lanes;
    let block = base.lanes[i].blocks[k];
    assert(lanes.contains(lanes[n]));
    lanes_are_stages_or_failures(base, lane_field, expected, lanes[n]);
    if text_at(block.doc, lane_field) == Some(lanes[n].name) {
        documents_stand_under_their_value(base, lane_field, expected, i, k);
        let m = choose|m: int|
            0 <= m < lanes.len() && (#[trigger] lanes[m]).blocks.contains(block)
                && lanes[m].state == LaneState::Reached && lanes[m].name == lanes[n].name;
        if m < n {
            stages_stand_once(base, lane_field, expected, m, n);
        } else {
            stages_stand_once(base, lane_field, expected, n, m);
        }
    }
}

/// Within a lane of a field, documents stand in the order of their times, those
/// without one last; and the lane names the containers that they came from, each
/// once, in the alphabet.
pub proof fn stages_read_in_order(
    base: TraceView,
    lane_field: Text,
    expected: Seq<Text>,
    n: int,
)
    requires
        lane_field.len() > 0,
        0 <= n < relaned(base, lane_field, expected).lanes.len(),
        !(relaned(base, lane_field, expected).lanes[n].state is Failed),
    ensures
        ({
            let lane = relaned(base, lane_field, expected).lanes[n];
            &&& forall|x: int, y: int|
                0 <= x < y < lane.blocks.len() && (#[trigger] lane.blocks[y]).at is Some ==> (
                #[trigger] lane.blocks[x]).at is Some && (lane.blocks[x].at->0) <= (
                lane.blocks[y].at->0) || lane.blocks[y].at == Some(i64::MAX)
            &&& lane.error is None
            &&& lane.detail is Some <==> lane.blocks.len() > 0
            &&& lane.blocks.len() > 0 ==> exists|sources: Seq<Text>|
                {
                    &&& #[trigger] joined(sources, ", "@) == lane.detail->0
                    &&& crate::order::ascending(sources)
                    &&& forall|c: Text| #[trigger]
                        sources.contains(c) <==> exists|x: int|
                            0 <= x < lane.blocks.len() && (#[trigger] lane.blocks[x]).container
                                == c
                }
        }),
{
    let out = regrouped(base.lanes, lane_field, expected);
    let lanes = arranged(out, by_path());
    let lane = lanes[n];
    let blocks = answered_blocks(base.lanes);
    let stages = stage_names(blocks, lane_field, expected);
    arranged_is_permutation(out, by_path());
    same_items(lanes, out);
    assert(lanes.contains(lane));
    let k = choose|k: int| 0 <= k < out.len() && out[k] == lane;
    if k >= stages.len() {
        let failed = failed_lanes(base.lanes);
        assert(failed[k - stages.len()] == lane);
        assert(failed.contains(lane));
        failed_lanes_are_there(base.lanes, lane);
    }
    let own = blocks_at(blocks, lane_field, stages[k]);
    let before = by_time();
    assert forall|a: BlockView, b: BlockView| #[trigger] before(a, b) implies !before(b, a) by {}
    assert forall|a: BlockView, b: BlockView, c: BlockView|
        !#[trigger] before(a, b) && !#[trigger] before(b, c) implies !before(a, c) by {}
    assert(is_order(before));
    arranged_in_order(own, before);
    arranged_is_permutation(own, before);
    assert forall|x: int, y: int|
        0 <= x < y < lane.blocks.len() && (#[trigger] lane.blocks[y]).at is Some implies (
    #[trigger] lane.blocks[x]).at is Some && (lane.blocks[x].at->0) <= (lane.blocks[y].at->0)
        || lane.blocks[y].at == Some(i64::MAX) by {
        assert(!before(lane.blocks[y], lane.blocks[x]));
    }
    let sources = distinct(sources_of(lane.blocks));
    distinct_is_ascending(sources_of(lane.blocks));
    assert forall|c: Text| #[trigger] sources.contains(c) <==> exists|x: int|
        0 <= x < lane.blocks.len() && (#[trigger] lane.blocks[x]).container == c by {
        let all = sources_of(lane.blocks);
        if all.contains(c) {
            let x = choose|x: int| 0 <= x < all.len() && all[x] == c;
            assert(lane.blocks[x].container == c);
        }
        if exists|x: int| 0 <= x < lane.blocks.len() && (#[trigger] lane.blocks[x]).container == c {
            let x = choose|x: int|
                0 <= x < lane.blocks.len() && (#[trigger] lane.blocks[x]).container == c;
            assert(all[x] == c);
        }
    }
    if lane.blocks.len() > 0 {
        assert(joined(sources, ", "@) == lane.detail->0);
    }
}

/// A trace may be incomplete on the axis of a field exactly where a container
/// that answered had more documents than were asked for.
pub proof fn incomplete_is_cut_short_somewhere(lanes: Seq<LaneView>)
    ensures
        is_cut_short(lanes) <==> exists|i: int|
            0 <= i < lanes.len() && (#[trigger] lanes[i]).truncated && !(lanes[i].state is Failed),
{
    if exists|i: int|
        0 <= i < lanes.len() && (#[trigger] lanes[i]).truncated && !(lanes[i].state is Failed) {
        let i = choose|i: int|
            0 <= i < lanes.len() && (#[trigger] lanes[i]).truncated && !(lanes[i].state is Failed);
        assert(!has_failed(lanes[i]));
    }
}

} // verus!
