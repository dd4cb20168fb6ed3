//! What a trace promises of the answers it was made of: which container is
//! asked for what, what its lane says, and in which order the lanes read.

use crate::order::{
    arranged, arranged_in_order, arranged_is_permutation, is_order, same_items,
};
use crate::services::blocks::{block_of, BlockView, TraceSpecView};
use crate::services::keys::{first_binding, BindingView, KeyView};
use crate::services::trace::{
    all_blocks, all_blocks_of_arranged, blocks_of, by_path, by_path_is_order, by_time, earliest,
    failed_trace_of, lane_before, lanes_in, lookup_of, lookups_of, own_lane, span_of, trace_of,
    AnswerView, LaneState, LaneView, LookupView,
};
use crate::text::{cut, cut_at, decimal, precedes, Text};
use vstd::prelude::*;

verus! {

// ── What is asked ────────────────────────────────────────────────────────

/// Whether the binding with number `b` is the first of `bindings` for the
/// container `path`.
pub open spec fn binds_first(bindings: Seq<BindingView>, path: Text, b: int) -> bool {
    &&& 0 <= b < bindings.len()
    &&& bindings[b].container == path
    &&& forall|k: int| 0 <= k < b ==> (#[trigger] bindings[k]).container != path
}

/// Whether none of `bindings` is for the container `path`.
pub open spec fn binds_not(bindings: Seq<BindingView>, path: Text) -> bool {
    forall|k: int| 0 <= k < bindings.len() ==> (#[trigger] bindings[k]).container != path
}

/// The binding of a container is the first that names it.
pub proof fn bindings_go_by_container(bindings: Seq<BindingView>, path: Text, b: int)
    ensures
        binds_first(bindings, path, b) ==> first_binding(bindings, path) == Some(bindings[b]),
        binds_not(bindings, path) ==> first_binding(bindings, path) is None,
    decreases bindings.len(),
{
    if bindings.len() > 0 {
        let rest = bindings.drop_first();
        assert forall|k: int| 0 <= k < rest.len() implies #[trigger] rest[k] == bindings[k + 1] by {}
        if binds_first(bindings, path, b) && b > 0 {
            assert(bindings[0].container != path);
            assert(binds_first(rest, path, b - 1));
        }
        if binds_not(bindings, path) {
            assert(bindings[0].container != path);
            assert(binds_not(rest, path));
        }
        bindings_go_by_container(rest, path, b - 1);
    }
}

proof fn path_is_cut(database: Text, container: Text)
    requires
        forall|i: int| 0 <= i < database.len() ==> #[trigger] database[i] != '/',
    ensures
        cut(database + "/"@ + container, '/') == Some((database, container)),
{
    reveal_strlit("/");
    let path = database + "/"@ + container;
    let at = database.len() as int;
    assert forall|j: int| 0 <= j < at implies path[j] != '/' by {
        assert(path[j] == database[j]);
    }
    assert(path[at] == '/');
    cut_at(path, '/', at);
    assert(path.take(at) =~= database);
    assert(path.skip(at + 1) =~= container);
}

/// A container that carries the key is asked, in its own database, for the
/// field that carries it there; one that does not is not asked.
pub proof fn containers_are_asked_for_their_field(
    database: Text,
    container: Text,
    key: KeyView,
    b: int,
)
    requires
        forall|i: int| 0 <= i < database.len() ==> #[trigger] database[i] != '/',
    ensures
        ({
            let path = database + "/"@ + container;
            &&& binds_first(key.bindings, path, b) ==> lookup_of(path, key) == Some(
                LookupView { path, database, container, field: key.bindings[b].field },
            )
            &&& binds_not(key.bindings, path) ==> lookup_of(path, key) is None
        }),
{
    path_is_cut(database, container);
    bindings_go_by_container(key.bindings, database + "/"@ + container, b);
}

/// Each container is asked once and in its turn: what is asked of two lists of
/// containers is what is asked of the first, and behind it what is asked of the
/// second; of one container alone, its own question or none.
pub proof fn containers_are_asked_in_turn(a: Seq<Text>, b: Seq<Text>, path: Text, key: KeyView)
    ensures
        lookups_of(a + b, key) == lookups_of(a, key) + lookups_of(b, key),
        lookup_of(path, key) is Some ==> lookups_of(seq![path], key) == seq![
            lookup_of(path, key)->0,
        ],
        lookup_of(path, key) is None ==> lookups_of(seq![path], key).len() == 0,
        lookups_of(Seq::empty(), key).len() == 0,
    decreases b.len(),
{
    let none = Seq::<Text>::empty();
    assert(seq![path].drop_last() =~= none);
    assert(lookups_of(none, key) =~= Seq::<LookupView>::empty());
    if lookup_of(path, key) is Some {
        assert(lookups_of(seq![path], key) =~= seq![lookup_of(path, key)->0]);
    }
    if b.len() == 0 {
        assert(a + b =~= a);
        assert(lookups_of(a, key) + lookups_of(b, key) =~= lookups_of(a, key));
    } else {
        assert((a + b).drop_last() =~= a + b.drop_last());
        containers_are_asked_in_turn(a, b.drop_last(), path, key);
        assert(lookups_of(a + b, key) =~= lookups_of(a, key) + lookups_of(b, key));
    }
}

// ── What a lane says ─────────────────────────────────────────────────────

/// The lane of a container says what the container answered. One that does not
/// carry the key is off the path, empty and without an error. One that answered
/// is reached exactly when it had documents, and waits otherwise; it has a card
/// for each document, numbered as they came, and says whether there were more.
/// One that failed says why, and shows nothing.
pub proof fn lanes_say_what_was_answered(
    database: Text,
    container: Text,
    spec: TraceSpecView,
    answers: Seq<AnswerView>,
    asked: nat,
    b: int,
)
    requires
        forall|i: int| 0 <= i < database.len() ==> #[trigger] database[i] != '/',
    ensures
        ({
            let path = database + "/"@ + container;
            let lane = own_lane(path, spec, answers, asked)->0;
            let field = spec.key.bindings[b].field;
            &&& own_lane(path, spec, answers, asked) is Some
            &&& lane.name == path
            &&& binds_not(spec.key.bindings, path) ==> {
                &&& lane.state == LaneState::OffPath
                &&& lane.blocks.len() == 0 && lane.error is None && lane.detail is None
                &&& !lane.truncated
            }
            &&& binds_first(spec.key.bindings, path, b) ==> match answers[asked as int] {
                Ok(page) => {
                    &&& lane.detail == Some(field)
                    &&& lane.error is None
                    &&& lane.truncated == page.truncated
                    &&& page.docs.len() == 0 ==> lane.state == LaneState::Awaiting
                    &&& page.docs.len() > 0 ==> lane.state == LaneState::Reached
                    &&& lane.blocks.len() == page.docs.len()
                    &&& forall|k: int|
                        0 <= k < page.docs.len() ==> lane.blocks.contains(
                            block_of(
                                #[trigger] page.docs[k],
                                spec,
                                path,
                                field,
                                path + "#"@ + decimal(k as nat),
                            ),
                        )
                },
                Err(e) => {
                    &&& lane.detail == Some(field)
                    &&& lane.state == LaneState::Failed(0)
                    &&& lane.error == Some(e.message)
                    &&& lane.blocks.len() == 0
                    &&& !lane.truncated
                },
            }
        }),
{
    let path = database + "/"@ + container;
    let lane = own_lane(path, spec, answers, asked)->0;
    path_is_cut(database, container);
    bindings_go_by_container(spec.key.bindings, path, b);
    if binds_first(spec.key.bindings, path, b) {
        let field = spec.key.bindings[b].field;
        if let Ok(page) = answers[asked as int] {
            let own = blocks_of(page.docs, spec, path, field);
            arranged_is_permutation(own, by_time());
            same_items(lane.blocks, own);
            assert forall|k: int| 0 <= k < page.docs.len() implies lane.blocks.contains(
                block_of(
                    #[trigger] page.docs[k],
                    spec,
                    path,
                    field,
                    path + "#"@ + decimal(k as nat),
                ),
            ) by {
                assert(own.contains(own[k]));
            }
        }
    }
}

/// Whether `blocks` stand in the order of their times, those without one last.
/// The very last instant there is counts as none.
pub open spec fn in_order_of_time(blocks: Seq<BlockView>) -> bool {
    forall|x: int, y: int|
        0 <= x < y < blocks.len() && (#[trigger] blocks[y]).at is Some && blocks[y].at != Some(
            i64::MAX,
        ) ==> (#[trigger] blocks[x]).at is Some && (blocks[x].at->0) <= (blocks[y].at->0)
}

/// The cards of a container's lane stand in the order of their times.
pub proof fn cards_of_a_lane_go_by_time(blocks: Seq<BlockView>)
    ensures
        in_order_of_time(arranged(blocks, by_time())),
{
    let before = by_time();
    assert forall|a: BlockView, b: BlockView| #[trigger] before(a, b) implies !before(b, a) by {}
    assert forall|a: BlockView, b: BlockView, c: BlockView|
        !#[trigger] before(a, b) && !#[trigger] before(b, c) implies !before(a, c) by {}
    assert(is_order(before));
    arranged_in_order(blocks, before);
    let sorted = arranged(blocks, before);
    assert forall|x: int, y: int|
        0 <= x < y < sorted.len() && (#[trigger] sorted[y]).at is Some && sorted[y].at != Some(
            i64::MAX,
        ) implies (#[trigger] sorted[x]).at is Some && (sorted[x].at->0) <= (sorted[y].at->0) by {
        assert(!before(sorted[y], sorted[x]));
    }
}

// ── How lanes read ───────────────────────────────────────────────────────

/// The first time of some blocks is that of one of them, and none is earlier;
/// there is none exactly where no block has a time.
pub proof fn first_time_is_the_least(blocks: Seq<BlockView>)
    ensures
        match earliest(blocks) {
            Some(t) => {
                &&& exists|i: int| 0 <= i < blocks.len() && (#[trigger] blocks[i]).at == Some(t)
                &&& forall|i: int|
                    0 <= i < blocks.len() && (#[trigger] blocks[i]).at is Some ==> t <= (
                    blocks[i].at->0)
            },
            None => forall|i: int| 0 <= i < blocks.len() ==> (#[trigger] blocks[i]).at is None,
        },
    decreases blocks.len(),
{
    if blocks.len() > 0 {
        let front = blocks.drop_last();
        let last = blocks.len() - 1;
        first_time_is_the_least(front);
        assert(blocks[last] == blocks.last());
        assert forall|i: int| 0 <= i < front.len() implies #[trigger] blocks[i] == front[i] by {}
        if let Some(t) = earliest(front) {
            let i = choose|i: int| 0 <= i < front.len() && (#[trigger] front[i]).at == Some(t);
            assert(blocks[i].at == Some(t));
        }
    }
}

/// Lanes read as the path the data took. What was reached stands in front, then
/// what waits, then what failed, then what is off the path. Among lanes of one
/// kind the earlier comes first, by the first time in it, one without a time
/// last; where that decides nothing, the name does.
pub proof fn lanes_read_in_order(spec: TraceSpecView, lanes: Seq<LaneView>, i: int, j: int)
    requires
        0 <= i < j < trace_of(spec, lanes).lanes.len(),
    ensures
        ({
            let (a, b) = (trace_of(spec, lanes).lanes[i], trace_of(spec, lanes).lanes[j]);
            let (s, t) = (earliest(a.blocks), earliest(b.blocks));
            &&& b.state == LaneState::Reached ==> a.state == LaneState::Reached
            &&& b.state == LaneState::Awaiting ==> a.state == LaneState::Reached || a.state
                == LaneState::Awaiting
            &&& b.state is Failed ==> a.state != LaneState::OffPath
            &&& a.state == b.state && t is Some && t != Some(i64::MAX) ==> s is Some && (s->0) <= (
            t->0)
            &&& a.state == b.state && s == t ==> !precedes(b.name, a.name)
        }),
{
    let before = by_path();
    by_path_is_order();
    arranged_in_order(lanes, before);
    let sorted = arranged(lanes, before);
    assert(!before(sorted[j], sorted[i]));
    assert(!lane_before(sorted[j], sorted[i]));
}

/// A trace is of the value that was asked for, under the key's name; its span
/// and its number of documents are those of the cards in its lanes.
pub proof fn traces_are_of_their_cards(spec: TraceSpecView, lanes: Seq<LaneView>)
    ensures
        ({
            let trace = trace_of(spec, lanes);
            &&& trace.value == spec.value
            &&& trace.key_label == spec.key.label
            &&& trace.blocks_found == all_blocks(lanes).len()
            &&& trace.span == span_of(all_blocks(trace.lanes))
            &&& trace.lanes.to_multiset() == lanes.to_multiset()
        }),
{
    all_blocks_of_arranged(lanes);
    arranged_is_permutation(lanes, by_path());
}

/// The cards of some lanes are those of the first, and behind them those of the
/// others.
pub proof fn cards_add_up(lanes: Seq<LaneView>, lane: LaneView)
    ensures
        all_blocks(lanes.push(lane)) == all_blocks(lanes) + lane.blocks,
        all_blocks(Seq::empty()).len() == 0,
{
    assert(lanes.push(lane).drop_last() =~= lanes);
}

/// Lanes are counted by their state.
pub proof fn lanes_are_counted_by_state(lanes: Seq<LaneView>, state: LaneState)
    ensures
        lanes_in(lanes, state) == lanes.filter(|l: LaneView| l.state == state).len(),
    decreases lanes.len(),
{
    reveal(Seq::filter);
    if lanes.len() > 0 {
        lanes_are_counted_by_state(lanes.drop_last(), state);
    }
}

/// An account that cannot be reached fails every container for that reason:
/// each has its lane, in its turn, and none is shown as empty.
pub proof fn unreachable_accounts_fail_everywhere(
    containers: Seq<Text>,
    spec: TraceSpecView,
    error: Text,
    i: int,
)
    requires
        0 <= i < containers.len(),
    ensures
        ({
            let trace = failed_trace_of(containers, spec, error);
            &&& trace.lanes.len() == containers.len()
            &&& trace.lanes[i].name == containers[i]
            &&& trace.lanes[i].state == LaneState::Failed(0)
            &&& trace.lanes[i].error == Some(error)
            &&& trace.lanes[i].blocks.len() == 0
            &&& trace.blocks_found == 0
            &&& trace.span is None
            &&& trace.value == spec.value
            &&& trace.key_label == spec.key.label
        }),
{
}

} // verus!
