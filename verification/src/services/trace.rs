//! Following one key value through the containers that carry it.
//!
//! The setup phase decided *what* to trace on; this decides *what happened* to
//! one particular value. The result is a set of lanes, each in one of four
//! states, which is the whole point of the view: an empty lane is as
//! informative as a full one, as long as you can tell "hasn't arrived" apart
//! from "was never on this path".
//!
//! A lane is a container by default, but it doesn't have to be. Querying is
//! always per container, and the results are regrouped afterwards, so a schema
//! that names its own stages (a workflow name, say) can drive the axis instead
//! of the physical storage layout.

use crate::order::{
    arrange, arranged, arranged_in_order, arranged_is_permutation, in_order, is_order, placed,
    same_items, Arrange,
};
use crate::services::blocks::{block_of, build_block, BlockView, TraceSpecView};
use crate::services::cosmos::{DataError, DataErrorView, Page, PageView};
use crate::services::discover::{first_binding, KeyCandidate, KeyView};
use crate::text::{
    concat, count, cut, decimal, decimal_tells_apart, is_before, names_in_turn, precedes, same,
    split_once, Text,
};
use crate::value::ValueView;
use vstd::prelude::*;

pub use crate::services::blocks::{Block, TraceSpec, MAX_BLOCKS};
pub use crate::services::document::{is_error, ErrorRule};
pub use crate::services::relane::relane;
pub use crate::services::time::{format_gap, format_time, parse_time};

verus! {

// ── Lanes ────────────────────────────────────────────────────────────────

/// What an empty or a full lane means.
#[derive(Clone, Copy, Debug, PartialEq, Eq, Structural)]
pub enum LaneState {
    /// The key value was found here.
    Reached,
    /// This container carries the key, but not this value: the data has not
    /// arrived (or never will).
    Awaiting,
    /// The key doesn't exist in this container at all: it isn't on this path,
    /// so its emptiness means nothing.
    OffPath,
    Failed(u8),
}

/// One row of a trace.
#[derive(Debug, PartialEq)]
pub struct Lane {
    /// A container path, or a value of the chosen lane field.
    pub name: String,
    /// Secondary line: the key's field path for container lanes, the source
    /// containers for field lanes.
    pub detail: Option<String>,
    pub blocks: Vec<Block>,
    pub state: LaneState,
    pub error: Option<String>,
    /// There were more documents than were asked for, so that some are not
    /// shown: not the same claim as a lane holding all there are.
    pub truncated: bool,
}

/// One row of a trace, as contracts speak of it.
pub struct LaneView {
    pub name: Text,
    pub detail: Option<Text>,
    pub blocks: Seq<BlockView>,
    pub state: LaneState,
    pub error: Option<Text>,
    pub truncated: bool,
}

impl View for Lane {
    type V = LaneView;

    open spec fn view(&self) -> LaneView {
        LaneView {
            name: self.name@,
            detail: self.detail.deep_view(),
            blocks: self.blocks.deep_view(),
            state: self.state,
            error: self.error.deep_view(),
            truncated: self.truncated,
        }
    }
}

impl DeepView for Lane {
    type V = LaneView;

    open spec fn deep_view(&self) -> LaneView {
        self@
    }
}

fn copy_blocks(blocks: &Vec<Block>) -> (out: Vec<Block>)
    ensures
        out.deep_view() == blocks.deep_view(),
{
    let mut out: Vec<Block> = Vec::new();
    let mut i: usize = 0;
    while i < blocks.len()
        invariant
            i <= blocks@.len(),
            out@.len() == i,
            forall|j: int| 0 <= j < i ==> (#[trigger] out@[j])@ == blocks@[j]@,
        decreases blocks.len() - i,
    {
        out.push(blocks[i].clone());
        i = i + 1;
    }
    assert(out.deep_view() =~= blocks.deep_view());
    out
}

fn copy_text(text: &Option<String>) -> (out: Option<String>)
    ensures
        out.deep_view() == text.deep_view(),
{
    match text {
        Some(s) => Some(s.clone()),
        None => None,
    }
}

impl Clone for Lane {
    fn clone(&self) -> (out: Self)
        ensures
            out@ == self@,
    {
        Lane {
            name: self.name.clone(),
            detail: copy_text(&self.detail),
            blocks: copy_blocks(&self.blocks),
            state: self.state,
            error: copy_text(&self.error),
            truncated: self.truncated,
        }
    }
}

/// The earliest time among `blocks`.
pub open spec fn earliest(blocks: Seq<BlockView>) -> Option<i64>
    decreases blocks.len(),
{
    if blocks.len() == 0 {
        None
    } else {
        match (earliest(blocks.drop_last()), blocks.last().at) {
            (Some(a), Some(b)) => Some(
                if b < a {
                    b
                } else {
                    a
                },
            ),
            (None, b) => b,
            (a, None) => a,
        }
    }
}

/// The latest time among `blocks`.
pub open spec fn latest(blocks: Seq<BlockView>) -> Option<i64>
    decreases blocks.len(),
{
    if blocks.len() == 0 {
        None
    } else {
        match (latest(blocks.drop_last()), blocks.last().at) {
            (Some(a), Some(b)) => Some(
                if b > a {
                    b
                } else {
                    a
                },
            ),
            (None, b) => b,
            (a, None) => a,
        }
    }
}

fn smaller(a: Option<i64>, b: Option<i64>) -> (out: Option<i64>)
    ensures
        out == (match (a, b) {
            (Some(x), Some(y)) => Some(
                if y < x {
                    y
                } else {
                    x
                },
            ),
            (None, y) => y,
            (x, None) => x,
        }),
{
    match (a, b) {
        (Some(x), Some(y)) => Some(
            if y < x {
                y
            } else {
                x
            },
        ),
        (None, y) => y,
        (x, None) => x,
    }
}

fn larger(a: Option<i64>, b: Option<i64>) -> (out: Option<i64>)
    ensures
        out == (match (a, b) {
            (Some(x), Some(y)) => Some(
                if y > x {
                    y
                } else {
                    x
                },
            ),
            (None, y) => y,
            (x, None) => x,
        }),
{
    match (a, b) {
        (Some(x), Some(y)) => Some(
            if y > x {
                y
            } else {
                x
            },
        ),
        (None, y) => y,
        (x, None) => x,
    }
}

impl Lane {
    /// The earliest time in the lane.
    pub fn first_at(&self) -> (out: Option<i64>)
        ensures
            out == earliest(self@.blocks),
    {
        let ghost all = self@.blocks;
        let mut out: Option<i64> = None;
        let mut i: usize = 0;
        while i < self.blocks.len()
            invariant
                all == self.blocks.deep_view(),
                i <= self.blocks@.len(),
                out == earliest(all.take(i as int)),
            decreases self.blocks.len() - i,
        {
            assert(all.take(i + 1).drop_last() =~= all.take(i as int));
            assert(all.take(i + 1).last() == self.blocks@[i as int]@);
            out = smaller(out, self.blocks[i].at);
            i = i + 1;
        }
        assert(all.take(i as int) =~= all);
        out
    }
}

/// The time `at`, or the end of time.
pub open spec fn or_end(at: Option<i64>) -> i64 {
    match at {
        Some(millis) => millis,
        None => i64::MAX,
    }
}

fn or_last(at: Option<i64>) -> (out: i64)
    ensures
        out == or_end(at),
{
    match at {
        Some(millis) => millis,
        None => i64::MAX,
    }
}

/// Blocks go by time, those without one last.
pub open spec fn block_before(a: BlockView, b: BlockView) -> bool {
    or_end(a.at) < or_end(b.at)
}

/// The order of `block_before`.
pub open spec fn by_time() -> spec_fn(BlockView, BlockView) -> bool {
    |a: BlockView, b: BlockView| block_before(a, b)
}

impl Arrange for Block {
    open spec fn before() -> spec_fn(BlockView, BlockView) -> bool {
        by_time()
    }

    fn comes_before(&self, other: &Self) -> (r: bool) {
        or_last(self.at) < or_last(other.at)
    }
}

/// Where lanes of a state go: reached ones first, then those that wait, those
/// that failed, and those off the path.
pub open spec fn rank_of(state: LaneState) -> int {
    match state {
        LaneState::Reached => 0,
        LaneState::Awaiting => 1,
        LaneState::Failed(_) => 2,
        LaneState::OffPath => 3,
    }
}

fn rank(state: LaneState) -> (out: u8)
    ensures
        out == rank_of(state),
{
    match state {
        LaneState::Reached => 0,
        LaneState::Awaiting => 1,
        LaneState::Failed(_) => 2,
        LaneState::OffPath => 3,
    }
}

/// Chronological where we know the time, so the lanes read as the path the data
/// actually took; unreached lanes sink to the bottom.
pub open spec fn lane_before(a: LaneView, b: LaneView) -> bool {
    let (ra, rb) = (rank_of(a.state), rank_of(b.state));
    let (ta, tb) = (or_end(earliest(a.blocks)), or_end(earliest(b.blocks)));
    ra < rb || (ra == rb && (ta < tb || (ta == tb && precedes(a.name, b.name))))
}

/// The order of `lane_before`.
pub open spec fn by_path() -> spec_fn(LaneView, LaneView) -> bool {
    |a: LaneView, b: LaneView| lane_before(a, b)
}

impl Arrange for Lane {
    open spec fn before() -> spec_fn(LaneView, LaneView) -> bool {
        by_path()
    }

    fn comes_before(&self, other: &Self) -> (r: bool) {
        let ra = rank(self.state);
        let rb = rank(other.state);
        let ta = or_last(self.first_at());
        let tb = or_last(other.first_at());
        ra < rb || (ra == rb && (ta < tb || (ta == tb && is_before(
            self.name.as_str(),
            other.name.as_str(),
        ))))
    }
}

/// Puts lanes in the order in which they are shown.
pub fn sort_lanes(lanes: Vec<Lane>) -> (out: Vec<Lane>)
    ensures
        out.deep_view() == arranged(lanes.deep_view(), by_path()),
{
    arrange(lanes)
}

// ── Traces ───────────────────────────────────────────────────────────────

/// What happened to one value.
#[derive(Debug, PartialEq)]
pub struct Trace {
    pub value: String,
    pub key_label: String,
    pub lanes: Vec<Lane>,
    /// Earliest and latest observed times, when any were found.
    pub span: Option<(i64, i64)>,
    pub blocks_found: usize,
}

/// What happened to one value, as contracts speak of it.
pub struct TraceView {
    pub value: Text,
    pub key_label: Text,
    pub lanes: Seq<LaneView>,
    pub span: Option<(i64, i64)>,
    pub blocks_found: nat,
}

impl View for Trace {
    type V = TraceView;

    open spec fn view(&self) -> TraceView {
        TraceView {
            value: self.value@,
            key_label: self.key_label@,
            lanes: self.lanes.deep_view(),
            span: self.span,
            blocks_found: self.blocks_found as nat,
        }
    }
}

fn copy_lanes(lanes: &Vec<Lane>) -> (out: Vec<Lane>)
    ensures
        out.deep_view() == lanes.deep_view(),
{
    let mut out: Vec<Lane> = Vec::new();
    let mut i: usize = 0;
    while i < lanes.len()
        invariant
            i <= lanes@.len(),
            out@.len() == i,
            forall|j: int| 0 <= j < i ==> (#[trigger] out@[j])@ == lanes@[j]@,
        decreases lanes.len() - i,
    {
        out.push(lanes[i].clone());
        i = i + 1;
    }
    assert(out.deep_view() =~= lanes.deep_view());
    out
}

impl Clone for Trace {
    fn clone(&self) -> (out: Self)
        ensures
            out@ == self@,
    {
        Trace {
            value: self.value.clone(),
            key_label: self.key_label.clone(),
            lanes: copy_lanes(&self.lanes),
            span: self.span,
            blocks_found: self.blocks_found,
        }
    }
}

/// How many of `lanes` are in the given state.
pub open spec fn lanes_in(lanes: Seq<LaneView>, state: LaneState) -> nat
    decreases lanes.len(),
{
    if lanes.len() == 0 {
        0
    } else if lanes.last().state == state {
        lanes_in(lanes.drop_last(), state) + 1
    } else {
        lanes_in(lanes.drop_last(), state)
    }
}

fn count_lanes(lanes: &Vec<Lane>, state: LaneState) -> (n: usize)
    ensures
        n == lanes_in(lanes.deep_view(), state),
{
    let ghost all = lanes.deep_view();
    let mut n: usize = 0;
    let mut i: usize = 0;
    while i < lanes.len()
        invariant
            all == lanes.deep_view(),
            i <= lanes@.len(),
            n <= i,
            n == lanes_in(all.take(i as int), state),
        decreases lanes.len() - i,
    {
        assert(all.take(i + 1).drop_last() =~= all.take(i as int));
        assert(all.take(i + 1).last() == lanes@[i as int]@);
        if lanes[i].state == state {
            n = n + 1;
        }
        i = i + 1;
    }
    assert(all.take(i as int) =~= all);
    n
}

/// The first of `blocks` with the given id.
pub open spec fn block_with(blocks: Seq<BlockView>, id: Text) -> Option<BlockView>
    decreases blocks.len(),
{
    if blocks.len() == 0 {
        None
    } else if blocks[0].id == id {
        Some(blocks[0])
    } else {
        block_with(blocks.drop_first(), id)
    }
}

/// The first block with the given id in any of `lanes`, and its lane.
pub open spec fn found_in(lanes: Seq<LaneView>, id: Text) -> Option<(LaneView, BlockView)>
    decreases lanes.len(),
{
    if lanes.len() == 0 {
        None
    } else {
        match block_with(lanes[0].blocks, id) {
            Some(block) => Some((lanes[0], block)),
            None => found_in(lanes.drop_first(), id),
        }
    }
}

impl Trace {
    /// How many lanes the value has reached.
    pub fn reached(&self) -> (n: usize)
        ensures
            n == lanes_in(self@.lanes, LaneState::Reached),
    {
        count_lanes(&self.lanes, LaneState::Reached)
    }

    /// How many lanes could carry the value but do not.
    pub fn awaiting(&self) -> (n: usize)
        ensures
            n == lanes_in(self@.lanes, LaneState::Awaiting),
    {
        count_lanes(&self.lanes, LaneState::Awaiting)
    }

    /// Resolves a card selection back to its lane and document.
    pub fn find_block(&self, id: &str) -> (out: Option<(&Lane, &Block)>)
        ensures
            match out {
                Some((lane, block)) => found_in(self@.lanes, id@) == Some((lane@, block@)),
                None => found_in(self@.lanes, id@) is None,
            },
    {
        let ghost all = self@.lanes;
        let mut i: usize = 0;
        assert(all.skip(0) =~= all);
        while i < self.lanes.len()
            invariant
                all == self.lanes.deep_view(),
                i <= self.lanes@.len(),
                found_in(all, id@) == found_in(all.skip(i as int), id@),
            decreases self.lanes.len() - i,
        {
            let lane = &self.lanes[i];
            assert(all.skip(i as int)[0] == lane@);
            assert(all.skip(i as int).drop_first() =~= all.skip(i + 1));
            let ghost blocks = lane@.blocks;
            let mut k: usize = 0;
            assert(blocks.skip(0) =~= blocks);
            while k < lane.blocks.len()
                invariant
                    all == self.lanes.deep_view(),
                    i < self.lanes@.len(),
                    lane == self.lanes@[i as int],
                    all.skip(i as int)[0] == lane@,
                    found_in(all, id@) == found_in(all.skip(i as int), id@),
                    blocks == lane.blocks.deep_view(),
                    k <= lane.blocks@.len(),
                    block_with(blocks, id@) == block_with(blocks.skip(k as int), id@),
                decreases lane.blocks.len() - k,
            {
                assert(blocks.skip(k as int)[0] == lane.blocks@[k as int]@);
                assert(blocks.skip(k as int).drop_first() =~= blocks.skip(k + 1));
                if same(lane.blocks[k].id.as_str(), id) {
                    return Some((lane, &lane.blocks[k]));
                }
                k = k + 1;
            }
            i = i + 1;
        }
        None
    }
}

// ── Running a trace ──────────────────────────────────────────────────────

/// What to ask one container.
#[derive(Debug, PartialEq)]
pub struct Lookup {
    /// `database/container`.
    pub path: String,
    pub database: String,
    pub container: String,
    /// The field that carries the key there.
    pub field: String,
}

/// What to ask one container, as contracts speak of it.
pub struct LookupView {
    pub path: Text,
    pub database: Text,
    pub container: Text,
    pub field: Text,
}

impl View for Lookup {
    type V = LookupView;

    open spec fn view(&self) -> LookupView {
        LookupView {
            path: self.path@,
            database: self.database@,
            container: self.container@,
            field: self.field@,
        }
    }
}

impl DeepView for Lookup {
    type V = LookupView;

    open spec fn deep_view(&self) -> LookupView {
        self@
    }
}

/// What to ask the container `path` for the key: nothing, if it is no path of a
/// container or does not carry the key.
pub open spec fn lookup_of(path: Text, key: KeyView) -> Option<LookupView> {
    match (cut(path, '/'), first_binding(key.bindings, path)) {
        (Some((database, container)), Some(binding)) => Some(
            LookupView { path, database, container, field: binding.field },
        ),
        _ => None,
    }
}

/// What to ask of `containers`, in their order.
pub open spec fn lookups_of(containers: Seq<Text>, key: KeyView) -> Seq<LookupView>
    decreases containers.len(),
{
    if containers.len() == 0 {
        Seq::empty()
    } else {
        let front = lookups_of(containers.drop_last(), key);
        match lookup_of(containers.last(), key) {
            Some(lookup) => front.push(lookup),
            None => front,
        }
    }
}

fn find_lookup(path: &str, key: &KeyCandidate) -> (out: Option<Lookup>)
    ensures
        out.deep_view() == lookup_of(path@, key@),
{
    match (split_once(path, '/'), key.binding_for(path)) {
        (Some((database, container)), Some(binding)) => Some(
            Lookup { path: path.to_owned(), database, container, field: binding.field.clone() },
        ),
        _ => None,
    }
}

/// What to ask of `containers`, in their order: every container that carries
/// the key is asked for the documents with its value.
pub fn plan(containers: &Vec<String>, key: &KeyCandidate) -> (out: Vec<Lookup>)
    ensures
        out.deep_view() == lookups_of(containers.deep_view(), key@),
{
    let ghost all = containers.deep_view();
    let mut out: Vec<Lookup> = Vec::new();
    let mut i: usize = 0;
    assert(out.deep_view() =~= Seq::<LookupView>::empty());
    while i < containers.len()
        invariant
            all == containers.deep_view(),
            i <= containers@.len(),
            out.deep_view() == lookups_of(all.take(i as int), key@),
        decreases containers.len() - i,
    {
        assert(all.take(i + 1).drop_last() =~= all.take(i as int));
        assert(all.take(i + 1).last() == containers@[i as int]@);
        if let Some(lookup) = find_lookup(containers[i].as_str(), key) {
            let ghost before = out.deep_view();
            let ghost view = lookup@;
            out.push(lookup);
            assert(out.deep_view() =~= before.push(view));
        }
        i = i + 1;
    }
    assert(all.take(i as int) =~= all);
    out
}

/// What a container answered.
pub type AnswerView = Result<PageView, DataErrorView>;

/// What a container answered, as contracts speak of it.
pub open spec fn answer_view(answer: Result<Page, DataError>) -> AnswerView {
    match answer {
        Ok(page) => Ok(page@),
        Err(e) => Err(e@),
    }
}

/// What the containers answered, as contracts speak of it.
pub open spec fn answer_views(answers: Seq<Result<Page, DataError>>) -> Seq<AnswerView> {
    Seq::new(answers.len(), |i: int| answer_view(answers[i]))
}

/// How many documents the containers answered with.
pub open spec fn documents_in(answers: Seq<AnswerView>) -> nat
    decreases answers.len(),
{
    if answers.len() == 0 {
        0
    } else {
        documents_in(answers.drop_last()) + (match answers.last() {
            Ok(page) => page.docs.len(),
            Err(_) => 0,
        })
    }
}

/// The cards of the documents that the container `path` answered with, before
/// they are sorted. A card's id is made of the container and the number of the
/// document.
pub open spec fn blocks_of(
    docs: Seq<ValueView>,
    spec: TraceSpecView,
    path: Text,
    field: Text,
) -> Seq<BlockView> {
    Seq::new(
        docs.len(),
        |i: int| block_of(docs[i], spec, path, field, path + "#"@ + decimal(i as nat)),
    )
}

/// The lane of a container that does not carry the key.
pub open spec fn off_path_lane(path: Text) -> LaneView {
    LaneView {
        name: path,
        detail: None,
        blocks: Seq::empty(),
        state: LaneState::OffPath,
        error: None,
        truncated: false,
    }
}

/// The lane of the container `path`, whose field `field` carries the key and
/// which answered `answer`.
pub open spec fn lane_of(
    path: Text,
    field: Text,
    spec: TraceSpecView,
    answer: AnswerView,
) -> LaneView {
    match answer {
        Ok(page) => LaneView {
            name: path,
            detail: Some(field),
            blocks: arranged(blocks_of(page.docs, spec, path, field), by_time()),
            state: if page.docs.len() == 0 {
                LaneState::Awaiting
            } else {
                LaneState::Reached
            },
            error: None,
            truncated: page.truncated,
        },
        Err(e) => LaneView {
            name: path,
            detail: Some(field),
            blocks: Seq::empty(),
            state: LaneState::Failed(0),
            error: Some(e.message),
            truncated: false,
        },
    }
}

/// The lanes of `containers`, in their order; `answers` are the answers to
/// `lookups_of(containers, spec.key)`. What is no path of a container has no
/// lane.
pub open spec fn lanes_of(
    containers: Seq<Text>,
    spec: TraceSpecView,
    answers: Seq<AnswerView>,
) -> Seq<LaneView>
    decreases containers.len(),
{
    if containers.len() == 0 {
        Seq::empty()
    } else {
        let earlier = containers.drop_last();
        let path = containers.last();
        let front = lanes_of(earlier, spec, answers);
        if cut(path, '/') is None {
            front
        } else {
            match first_binding(spec.key.bindings, path) {
                None => front.push(off_path_lane(path)),
                Some(binding) => front.push(
                    lane_of(
                        path,
                        binding.field,
                        spec,
                        answers[lookups_of(earlier, spec.key).len() as int],
                    ),
                ),
            }
        }
    }
}

/// The blocks of all of `lanes`.
pub open spec fn all_blocks(lanes: Seq<LaneView>) -> Seq<BlockView>
    decreases lanes.len(),
{
    if lanes.len() == 0 {
        Seq::empty()
    } else {
        all_blocks(lanes.drop_last()) + lanes.last().blocks
    }
}

/// The earliest and the latest time among `blocks`.
pub open spec fn span_of(blocks: Seq<BlockView>) -> Option<(i64, i64)> {
    match (earliest(blocks), latest(blocks)) {
        (Some(lo), Some(hi)) => Some((lo, hi)),
        _ => None,
    }
}

/// The trace that `lanes` make up, once sorted.
pub open spec fn trace_of(spec: TraceSpecView, lanes: Seq<LaneView>) -> TraceView {
    let sorted = arranged(lanes, by_path());
    TraceView {
        value: spec.value,
        key_label: spec.key.label,
        lanes: sorted,
        span: span_of(all_blocks(sorted)),
        blocks_found: all_blocks(sorted).len(),
    }
}

fn build_lane(path: &str, field: &str, spec: &TraceSpec, answer: &Result<Page, DataError>) -> (out:
    Lane)
    ensures
        out@ == lane_of(path@, field@, spec@, answer_view(*answer)),
{
    match answer {
        Ok(page) => {
            let ghost docs = page.docs.deep_view();
            let mut blocks: Vec<Block> = Vec::new();
            let mut i: usize = 0;
            while i < page.docs.len()
                invariant
                    docs == page.docs.deep_view(),
                    i <= page.docs@.len(),
                    blocks@.len() == i,
                    forall|j: int|
                        0 <= j < i ==> (#[trigger] blocks@[j])@ == blocks_of(
                            docs,
                            spec@,
                            path@,
                            field@,
                        )[j],
                decreases page.docs.len() - i,
            {
                let digits = count(i);
                let front = concat(path, "#");
                let id = concat(front.as_str(), digits.as_str());
                blocks.push(build_block(&page.docs[i], spec, path, field, id.as_str()));
                i = i + 1;
            }
            assert(blocks.deep_view() =~= blocks_of(docs, spec@, path@, field@));
            Lane {
                name: path.to_owned(),
                detail: Some(field.to_owned()),
                state: if blocks.len() == 0 {
                    LaneState::Awaiting
                } else {
                    LaneState::Reached
                },
                blocks: arrange(blocks),
                error: None,
                truncated: page.truncated,
            }
        },
        Err(e) => {
            let blocks: Vec<Block> = Vec::new();
            assert(blocks.deep_view() =~= Seq::<BlockView>::empty());
            Lane {
                name: path.to_owned(),
                detail: Some(field.to_owned()),
                blocks,
                state: LaneState::Failed(0),
                error: Some(e.message.clone()),
                truncated: false,
            }
        },
    }
}

pub(crate) proof fn all_blocks_of_arranged(lanes: Seq<LaneView>)
    ensures
        all_blocks(arranged(lanes, by_path())).to_multiset() == all_blocks(lanes).to_multiset(),
        all_blocks(arranged(lanes, by_path())).len() == all_blocks(lanes).len(),
    decreases lanes.len(),
{
    broadcast use vstd::seq_lib::group_to_multiset_ensures;

    if lanes.len() > 0 {
        let front = arranged(lanes.drop_last(), by_path());
        all_blocks_of_arranged(lanes.drop_last());
        all_blocks_of_placed(front, lanes.last());
        vstd::seq_lib::lemma_multiset_commutative(
            all_blocks(lanes.drop_last()),
            lanes.last().blocks,
        );
        assert(all_blocks(arranged(lanes, by_path())).to_multiset() =~= all_blocks(
            lanes,
        ).to_multiset());
    }
}

proof fn all_blocks_of_placed(s: Seq<LaneView>, x: LaneView)
    ensures
        all_blocks(placed(s, x, by_path())).to_multiset() == all_blocks(s).to_multiset().add(
            x.blocks.to_multiset(),
        ),
        all_blocks(placed(s, x, by_path())).len() == all_blocks(s).len() + x.blocks.len(),
    decreases s.len(),
{
    let before = by_path();
    if s.len() > 0 && before(x, s.last()) {
        let front = placed(s.drop_last(), x, before);
        all_blocks_of_placed(s.drop_last(), x);
        assert(front.push(s.last()).drop_last() =~= front);
        vstd::seq_lib::lemma_multiset_commutative(all_blocks(front), s.last().blocks);
        vstd::seq_lib::lemma_multiset_commutative(all_blocks(s.drop_last()), s.last().blocks);
        assert(all_blocks(placed(s, x, before)).to_multiset() =~= all_blocks(s).to_multiset().add(
            x.blocks.to_multiset(),
        ));
    } else {
        assert(s.push(x).drop_last() =~= s);
        vstd::seq_lib::lemma_multiset_commutative(all_blocks(s), x.blocks);
    }
}

proof fn lanes_hold_documents(
    containers: Seq<Text>,
    spec: TraceSpecView,
    answers: Seq<AnswerView>,
    upto: int,
)
    requires
        0 <= upto <= answers.len(),
        upto == lookups_of(containers, spec.key).len(),
    ensures
        all_blocks(lanes_of(containers, spec, answers)).len() == documents_in(answers.take(upto)),
    decreases containers.len(),
{
    if containers.len() > 0 {
        let earlier = containers.drop_last();
        let path = containers.last();
        let front = lanes_of(earlier, spec, answers);
        let all = lanes_of(containers, spec, answers);
        let n = lookups_of(earlier, spec.key).len() as int;
        if lookup_of(path, spec.key) is Some {
            assert(upto == n + 1);
            lanes_hold_documents(earlier, spec, answers, n);
            assert(answers.take(upto).drop_last() =~= answers.take(n));
            assert(all.drop_last() =~= front);
            if let Ok(page) = answers[n] {
                let field = first_binding(spec.key.bindings, path)->0.field;
                arranged_is_permutation(blocks_of(page.docs, spec, path, field), by_time());
            }
        } else {
            lanes_hold_documents(earlier, spec, answers, upto);
            if cut(path, '/') is Some {
                assert(all.drop_last() =~= front);
            }
        }
    } else {
        assert(answers.take(0).len() == 0);
    }
}

fn finish(spec: &TraceSpec, lanes: Vec<Lane>) -> (out: Trace)
    requires
        all_blocks(lanes.deep_view()).len() <= usize::MAX,
    ensures
        out@ == trace_of(spec@, lanes.deep_view()),
{
    proof {
        all_blocks_of_arranged(lanes.deep_view());
    }
    let lanes = sort_lanes(lanes);
    let ghost all = lanes.deep_view();
    let mut lo: Option<i64> = None;
    let mut hi: Option<i64> = None;
    let mut found: usize = 0;
    let mut i: usize = 0;
    while i < lanes.len()
        invariant
            all == lanes.deep_view(),
            all_blocks(all).len() <= usize::MAX,
            i <= lanes@.len(),
            found == all_blocks(all.take(i as int)).len(),
            lo == earliest(all_blocks(all.take(i as int))),
            hi == latest(all_blocks(all.take(i as int))),
        decreases lanes.len() - i,
    {
        let lane = &lanes[i];
        let ghost before = all_blocks(all.take(i as int));
        let ghost blocks = lane.blocks.deep_view();
        let mut k: usize = 0;
        assert(before + blocks.take(0) =~= before);
        while k < lane.blocks.len()
            invariant
                blocks == lane.blocks.deep_view(),
                k <= lane.blocks@.len(),
                lo == earliest(before + blocks.take(k as int)),
                hi == latest(before + blocks.take(k as int)),
            decreases lane.blocks.len() - k,
        {
            let at = lane.blocks[k].at;
            assert((before + blocks.take(k + 1)).drop_last() =~= before + blocks.take(k as int));
            assert((before + blocks.take(k + 1)).last() == lane.blocks@[k as int]@);
            lo = smaller(lo, at);
            hi = larger(hi, at);
            k = k + 1;
        }
        assert(blocks.take(k as int) =~= blocks);
        assert(all.take(i + 1).drop_last() =~= all.take(i as int));
        assert(all.take(i + 1).last() == lane@);
        assert(all_blocks(all.take(i + 1)) == before + blocks);
        proof {
            all_blocks_grow(all, i + 1);
        }
        found = found + lane.blocks.len();
        i = i + 1;
    }
    assert(all.take(i as int) =~= all);
    let span = match (lo, hi) {
        (Some(lo), Some(hi)) => Some((lo, hi)),
        _ => None,
    };
    Trace {
        value: spec.value.clone(),
        key_label: spec.key.label.clone(),
        lanes,
        span,
        blocks_found: found,
    }
}

pub(crate) proof fn all_blocks_grow(lanes: Seq<LaneView>, upto: int)
    requires
        0 <= upto <= lanes.len(),
    ensures
        all_blocks(lanes.take(upto)).len() <= all_blocks(lanes).len(),
    decreases lanes.len() - upto,
{
    if upto < lanes.len() {
        assert(lanes.take(upto + 1).drop_last() =~= lanes.take(upto));
        all_blocks_grow(lanes, upto + 1);
    } else {
        assert(lanes.take(upto) =~= lanes);
    }
}

/// Puts together what the containers answered to `plan`, and records the
/// containers that aren't bound to the key at all, so the view can show the
/// difference.
///
/// Always container lanes here. Choosing a different axis is a display
/// decision, applied by `relane`: it must not require asking again.
pub fn run(
    containers: &Vec<String>,
    spec: &TraceSpec,
    answers: &Vec<Result<Page, DataError>>,
) -> (out: Trace)
    requires
        answers@.len() == lookups_of(containers.deep_view(), spec.key@).len(),
        documents_in(answer_views(answers@)) <= usize::MAX,
    ensures
        out@ == trace_of(
            spec@,
            lanes_of(containers.deep_view(), spec@, answer_views(answers@)),
        ),
{
    let ghost all = containers.deep_view();
    let ghost views = answer_views(answers@);
    let mut lanes: Vec<Lane> = Vec::new();
    let mut asked: usize = 0;
    let mut i: usize = 0;
    assert(lanes.deep_view() =~= Seq::<LaneView>::empty());
    while i < containers.len()
        invariant
            all == containers.deep_view(),
            views == answer_views(answers@),
            answers@.len() == lookups_of(all, spec.key@).len(),
            i <= containers@.len(),
            asked == lookups_of(all.take(i as int), spec.key@).len(),
            lanes.deep_view() == lanes_of(all.take(i as int), spec@, views),
        decreases containers.len() - i,
    {
        let path = &containers[i];
        assert(all.take(i + 1).drop_last() =~= all.take(i as int));
        assert(all.take(i + 1).last() == path@);
        proof {
            lookups_grow(all, spec.key@, i + 1);
        }
        let ghost before = lanes.deep_view();
        if split_once(path.as_str(), '/').is_some() {
            match spec.key.binding_for(path.as_str()) {
                None => {
                    let blocks: Vec<Block> = Vec::new();
                    assert(blocks.deep_view() =~= Seq::<BlockView>::empty());
                    let lane = Lane {
                        name: path.clone(),
                        detail: None,
                        blocks,
                        state: LaneState::OffPath,
                        error: None,
                        truncated: false,
                    };
                    assert(lane@ == off_path_lane(path@));
                    lanes.push(lane);
                    assert(lanes.deep_view() =~= before.push(off_path_lane(path@)));
                },
                Some(binding) => {
                    assert(lookup_of(path@, spec.key@) is Some);
                    let lane = build_lane(
                        path.as_str(),
                        binding.field.as_str(),
                        spec,
                        &answers[asked],
                    );
                    let ghost view = lane@;
                    assert(views[asked as int] == answer_view(answers@[asked as int]));
                    lanes.push(lane);
                    assert(lanes.deep_view() =~= before.push(view));
                    assert(asked < answers.len());
                    asked = asked + 1;
                },
            }
        }
        i = i + 1;
    }
    assert(all.take(i as int) =~= all);
    proof {
        lanes_hold_documents(all, spec@, views, asked as int);
        assert(views.take(asked as int) =~= views);
    }
    finish(spec, lanes)
}

proof fn lookups_grow(containers: Seq<Text>, key: KeyView, upto: int)
    requires
        0 <= upto <= containers.len(),
    ensures
        lookups_of(containers.take(upto), key).len() <= lookups_of(containers, key).len(),
    decreases containers.len() - upto,
{
    if upto < containers.len() {
        assert(containers.take(upto + 1).drop_last() =~= containers.take(upto));
        lookups_grow(containers, key, upto + 1);
    } else {
        assert(containers.take(upto) =~= containers);
    }
}

/// The trace of an account that could not be reached: every container failed
/// for the same reason.
pub open spec fn failed_trace_of(
    containers: Seq<Text>,
    spec: TraceSpecView,
    error: Text,
) -> TraceView {
    TraceView {
        value: spec.value,
        key_label: spec.key.label,
        lanes: Seq::new(
            containers.len(),
            |i: int|
                LaneView {
                    name: containers[i],
                    detail: None,
                    blocks: Seq::empty(),
                    state: LaneState::Failed(0),
                    error: Some(error),
                    truncated: false,
                },
        ),
        span: None,
        blocks_found: 0,
    }
}

/// The trace of an account that could not be reached.
pub fn failed_trace(containers: &Vec<String>, spec: &TraceSpec, error: &DataError) -> (out: Trace)
    ensures
        out@ == failed_trace_of(containers.deep_view(), spec@, error@.message),
{
    let ghost view = failed_trace_of(containers.deep_view(), spec@, error@.message);
    let mut lanes: Vec<Lane> = Vec::new();
    let mut i: usize = 0;
    while i < containers.len()
        invariant
            view == failed_trace_of(containers.deep_view(), spec@, error@.message),
            i <= containers@.len(),
            lanes@.len() == i,
            forall|j: int| 0 <= j < i ==> (#[trigger] lanes@[j])@ == view.lanes[j],
        decreases containers.len() - i,
    {
        let blocks: Vec<Block> = Vec::new();
        assert(blocks.deep_view() =~= Seq::<BlockView>::empty());
        lanes.push(
            Lane {
                name: containers[i].clone(),
                detail: None,
                blocks,
                state: LaneState::Failed(0),
                error: Some(error.message.clone()),
                truncated: false,
            },
        );
        i = i + 1;
    }
    assert(lanes.deep_view() =~= view.lanes);
    Trace {
        value: spec.value.clone(),
        key_label: spec.key.label.clone(),
        lanes,
        span: None,
        blocks_found: 0,
    }
}

// ── What holds of every trace ────────────────────────────────────────────

pub(crate) proof fn by_path_is_order()
    ensures
        is_order(by_path()),
{
    let before = by_path();
    assert forall|a: LaneView, b: LaneView| #[trigger] before(a, b) implies !before(b, a) by {
        names_in_turn(a.name, b.name, a.name);
    }
    assert forall|a: LaneView, b: LaneView, c: LaneView|
        !#[trigger] before(a, b) && !#[trigger] before(b, c) implies !before(a, c) by {
        names_in_turn(a.name, b.name, c.name);
    }
}

/// The lanes of a trace read as the path the data took: no lane stands in front
/// of one that was reached earlier, and none that was not reached in front of
/// one that was. Sorting changes nothing but their order.
pub proof fn lanes_read_as_path(spec: TraceSpecView, lanes: Seq<LaneView>)
    ensures
        in_order(trace_of(spec, lanes).lanes, by_path()),
        trace_of(spec, lanes).lanes.to_multiset() == lanes.to_multiset(),
        all_blocks(trace_of(spec, lanes).lanes).to_multiset() == all_blocks(lanes).to_multiset(),
{
    by_path_is_order();
    arranged_in_order(lanes, by_path());
    arranged_is_permutation(lanes, by_path());
    all_blocks_of_arranged(lanes);
}

/// The lane that the container `path` has in a trace: none if it is no path of
/// a container; off the path if it does not carry the key; else what it
/// answered, which is the answer with number `asked`.
pub open spec fn own_lane(
    path: Text,
    spec: TraceSpecView,
    answers: Seq<AnswerView>,
    asked: nat,
) -> Option<LaneView> {
    if cut(path, '/') is None {
        None
    } else {
        match first_binding(spec.key.bindings, path) {
            None => Some(off_path_lane(path)),
            Some(binding) => Some(lane_of(path, binding.field, spec, answers[asked as int])),
        }
    }
}

/// Every container has its lane in the trace: a container is never left out,
/// whether it answered, failed, or does not carry the key.
pub proof fn every_container_has_its_lane(
    containers: Seq<Text>,
    spec: TraceSpecView,
    answers: Seq<AnswerView>,
    i: int,
)
    requires
        0 <= i < containers.len(),
    ensures
        match own_lane(
            containers[i],
            spec,
            answers,
            lookups_of(containers.take(i), spec.key).len(),
        ) {
            Some(lane) => trace_of(spec, lanes_of(containers, spec, answers)).lanes.contains(lane),
            None => cut(containers[i], '/') is None,
        },
    decreases containers.len(),
{
    let all = lanes_of(containers, spec, answers);
    let earlier = containers.drop_last();
    let front = lanes_of(earlier, spec, answers);
    let own = own_lane(
        containers[i],
        spec,
        answers,
        lookups_of(containers.take(i), spec.key).len(),
    );
    if let Some(lane) = own {
        if i < containers.len() - 1 {
            every_container_has_its_lane(earlier, spec, answers, i);
            assert(earlier.take(i) =~= containers.take(i));
            arranged_is_permutation(front, by_path());
            same_items(arranged(front, by_path()), front);
            assert(front.contains(lane));
            let k = choose|k: int| 0 <= k < front.len() && front[k] == lane;
            assert(all[k] == lane);
        } else {
            assert(containers.take(i) =~= earlier);
            assert(all[all.len() - 1] == lane);
        }
        assert(all.contains(lane));
        arranged_is_permutation(all, by_path());
        same_items(arranged(all, by_path()), all);
    }
}

/// A trace counts every document that came, no more and no fewer.
pub proof fn trace_counts_documents(
    containers: Seq<Text>,
    spec: TraceSpecView,
    answers: Seq<AnswerView>,
)
    requires
        answers.len() == lookups_of(containers, spec.key).len(),
    ensures
        trace_of(spec, lanes_of(containers, spec, answers)).blocks_found == documents_in(answers),
{
    lanes_hold_documents(containers, spec, answers, answers.len() as int);
    assert(answers.take(answers.len() as int) =~= answers);
    all_blocks_of_arranged(lanes_of(containers, spec, answers));
}

/// The span of a trace holds every time in it, and both its ends are such
/// times; there is none exactly when no document has a time.
pub proof fn span_holds_every_time(blocks: Seq<BlockView>)
    ensures
        match span_of(blocks) {
            Some((lo, hi)) => {
                &&& lo <= hi
                &&& exists|i: int| 0 <= i < blocks.len() && (#[trigger] blocks[i]).at == Some(lo)
                &&& exists|i: int| 0 <= i < blocks.len() && (#[trigger] blocks[i]).at == Some(hi)
                &&& forall|i: int|
                    0 <= i < blocks.len() ==> match (#[trigger] blocks[i]).at {
                        Some(at) => lo <= at <= hi,
                        None => true,
                    }
            },
            None => forall|i: int| 0 <= i < blocks.len() ==> (#[trigger] blocks[i]).at is None,
        },
    decreases blocks.len(),
{
    if blocks.len() > 0 {
        let front = blocks.drop_last();
        let last = blocks.len() - 1;
        span_holds_every_time(front);
        ends_come_together(front);
        ends_come_together(blocks);
        assert forall|i: int| 0 <= i < front.len() implies #[trigger] blocks[i] == front[i] by {}
        if let Some((lo, hi)) = span_of(front) {
            let a = choose|i: int| 0 <= i < front.len() && (#[trigger] front[i]).at == Some(lo);
            let b = choose|i: int| 0 <= i < front.len() && (#[trigger] front[i]).at == Some(hi);
            assert(blocks[a].at == Some(lo));
            assert(blocks[b].at == Some(hi));
        }
        assert(blocks[last].at == blocks.last().at);
    }
}

proof fn ends_come_together(blocks: Seq<BlockView>)
    ensures
        earliest(blocks) is Some <==> latest(blocks) is Some,
    decreases blocks.len(),
{
    if blocks.len() > 0 {
        ends_come_together(blocks.drop_last());
    }
}

// ── Selecting a card ─────────────────────────────────────────────────────

proof fn block_with_is_there(blocks: Seq<BlockView>, id: Text)
    ensures
        match block_with(blocks, id) {
            Some(b) => b.id == id && blocks.contains(b),
            None => forall|i: int| 0 <= i < blocks.len() ==> (#[trigger] blocks[i]).id != id,
        },
    decreases blocks.len(),
{
    if blocks.len() > 0 {
        let rest = blocks.drop_first();
        block_with_is_there(rest, id);
        if blocks[0].id == id {
            assert(blocks.contains(blocks[0]));
        } else {
            match block_with(rest, id) {
                Some(b) => {
                    let k = choose|k: int| 0 <= k < rest.len() && rest[k] == b;
                    assert(blocks[k + 1] == b);
                },
                None => {
                    assert forall|i: int| 0 <= i < blocks.len() implies (#[trigger] blocks[i]).id
                        != id by {
                        if i > 0 {
                            assert(rest[i - 1] == blocks[i]);
                        }
                    }
                },
            }
        }
    }
}

proof fn all_blocks_front(lanes: Seq<LaneView>)
    requires
        lanes.len() > 0,
    ensures
        all_blocks(lanes) == lanes[0].blocks + all_blocks(lanes.drop_first()),
    decreases lanes.len(),
{
    let rest = lanes.drop_first();
    if lanes.len() == 1 {
        assert(all_blocks(lanes.drop_last()) =~= Seq::<BlockView>::empty());
        assert(all_blocks(rest) =~= Seq::<BlockView>::empty());
        assert(all_blocks(lanes) =~= lanes[0].blocks + all_blocks(rest));
    } else {
        all_blocks_front(lanes.drop_last());
        assert(lanes.drop_last().drop_first() =~= rest.drop_last());
        assert(all_blocks(lanes) =~= lanes[0].blocks + all_blocks(rest));
    }
}

/// A selection resolves exactly when some card has that id; it resolves to a
/// card with the id, in the lane that holds it.
pub proof fn selection_resolves(lanes: Seq<LaneView>, id: Text)
    ensures
        match found_in(lanes, id) {
            Some((lane, block)) => {
                &&& block.id == id
                &&& lanes.contains(lane)
                &&& lane.blocks.contains(block)
                &&& all_blocks(lanes).contains(block)
            },
            None => forall|i: int|
                0 <= i < all_blocks(lanes).len() ==> (#[trigger] all_blocks(lanes)[i]).id != id,
        },
    decreases lanes.len(),
{
    if lanes.len() > 0 {
        let rest = lanes.drop_first();
        let all = all_blocks(lanes);
        all_blocks_front(lanes);
        block_with_is_there(lanes[0].blocks, id);
        selection_resolves(rest, id);
        match block_with(lanes[0].blocks, id) {
            Some(b) => {
                let k = choose|k: int| 0 <= k < lanes[0].blocks.len() && lanes[0].blocks[k] == b;
                assert(all[k] == b);
                assert(lanes.contains(lanes[0]));
            },
            None => {
                match found_in(rest, id) {
                    Some((lane, block)) => {
                        let k = choose|k: int| 0 <= k < rest.len() && rest[k] == lane;
                        assert(lanes[k + 1] == lane);
                        let m = choose|m: int|
                            0 <= m < all_blocks(rest).len() && all_blocks(rest)[m] == block;
                        assert(all[lanes[0].blocks.len() + m] == block);
                    },
                    None => {
                        assert forall|i: int| 0 <= i < all.len() implies (#[trigger] all[i]).id
                            != id by {
                            if i >= lanes[0].blocks.len() {
                                assert(all[i] == all_blocks(rest)[i - lanes[0].blocks.len()]);
                            } else {
                                assert(all[i] == lanes[0].blocks[i]);
                            }
                        }
                    },
                }
            },
        }
    }
}

/// Whether no two different cards share an id.
pub open spec fn ids_tell_apart(blocks: Seq<BlockView>) -> bool {
    forall|i: int, j: int|
        0 <= i < blocks.len() && 0 <= j < blocks.len() && (#[trigger] blocks[i]).id == (
        #[trigger] blocks[j]).id ==> blocks[i] == blocks[j]
}

/// A selected card stays selected: wherever the same cards end up, sorted or on
/// another axis, an id resolves to the same document.
pub proof fn selection_survives(a: Seq<LaneView>, b: Seq<LaneView>, id: Text)
    requires
        all_blocks(a).to_multiset() == all_blocks(b).to_multiset(),
        ids_tell_apart(all_blocks(a)),
    ensures
        found_in(a, id) is Some <==> found_in(b, id) is Some,
        found_in(a, id) is Some ==> (found_in(a, id)->0).1 == (found_in(b, id)->0).1,
{
    selection_resolves(a, id);
    selection_resolves(b, id);
    same_items(all_blocks(a), all_blocks(b));
    if let Some((_, block)) = found_in(a, id) {
        let k = choose|k: int| 0 <= k < all_blocks(a).len() && all_blocks(a)[k] == block;
        assert(all_blocks(b).contains(block));
        let m = choose|m: int| 0 <= m < all_blocks(b).len() && all_blocks(b)[m] == block;
        assert(all_blocks(b)[m].id == id);
        let other = (found_in(b, id)->0).1;
        assert(all_blocks(a).contains(other));
        let n = choose|n: int| 0 <= n < all_blocks(a).len() && all_blocks(a)[n] == other;
        assert(all_blocks(a)[n].id == all_blocks(a)[k].id);
    } else if let Some((_, block)) = found_in(b, id) {
        assert(all_blocks(a).contains(block));
        let n = choose|n: int| 0 <= n < all_blocks(a).len() && all_blocks(a)[n] == block;
        assert(all_blocks(a)[n].id == id);
    }
}

/// Ids are handed out by container and number, and no two pairs of these share
/// an id.
pub proof fn ids_are_unique(path: Text, i: nat, other: Text, j: nat)
    requires
        path + "#"@ + decimal(i) == other + "#"@ + decimal(j),
    ensures
        path == other,
        i == j,
{
    reveal_strlit("#");
    let a = path + "#"@ + decimal(i);
    let b = other + "#"@ + decimal(j);
    decimal_tells_apart(i, j);
    decimal_tells_apart(j, i);
    assert(a.len() == path.len() + 1 + decimal(i).len());
    assert(b.len() == other.len() + 1 + decimal(j).len());
    if path.len() < other.len() {
        assert(b[other.len() as int] == '#');
        assert(a[other.len() as int] == decimal(i)[other.len() - path.len() - 1]);
    } else if other.len() < path.len() {
        assert(a[path.len() as int] == '#');
        assert(b[path.len() as int] == decimal(j)[path.len() - other.len() - 1]);
    } else {
        assert(a.take(path.len() as int) =~= path);
        assert(b.take(path.len() as int) =~= other);
        assert(a.skip(path.len() as int + 1) =~= decimal(i));
        assert(b.skip(path.len() as int + 1) =~= decimal(j));
    }
}

} // verus!
