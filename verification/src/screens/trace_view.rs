//! The instance view: one key value, one lane per stage, time on the x axis.
//! What counts as a stage is decided upstream: a container by default, or the
//! values of a chosen field.
//!
//! Deliberately not a force-directed graph. The layout is arithmetic, so the
//! same flow renders identically every time and two values can be compared side
//! by side, and an empty lane keeps its place instead of being pushed around by
//! a simulation.
//!
//! Places on the track are integers: a layout comes with a scale, the number of
//! its units in one pixel. With the length of the trace as the scale, every
//! place on the time axis is a whole number of units.

use crate::float::{
    find_floor, floor, nearest, nearest_from_above, nearest_from_below, nearest_holds, round, DOUBLE,
};
use crate::order::{
    arrange, arranged, arranged_in_order, arranged_is_permutation, arranged_is_stable, in_order, same_items, Arrange,
};
use crate::services::blocks::{Block, BlockView};
use crate::services::document::{is_error, is_failure, ErrorRule, RuleView};
use crate::services::time::{format_gap, format_time, gap_text, time_text};
use crate::services::trace::{
    all_blocks, all_blocks_grow, earliest, Lane, LaneState, LaneView, Trace, TraceView,
};
use crate::text::{concat, Text};
use vstd::arithmetic::power2::{lemma2_to64, lemma2_to64_rest};
use vstd::prelude::*;

verus! {

/// The width of a card in pixels.
pub const CARD_W: i128 = 158;

/// The space between two cards of a lane, in pixels.
pub const CARD_GAP: i128 = 10;

/// The space at either end of the track, in pixels.
pub const PAD: i128 = 20;

/// Width the timeline gets when nothing forces it wider, in pixels.
pub const BASE_TRACK: i128 = 900;

/// How many ticks the time axis has.
pub const TICKS: usize = 5;

/// More cards than any memory holds: with fewer, no place on a track is too
/// large to be written down.
pub const MANY_CARDS: u64 = 0x1_0000_0000_0000;

/// How many units of a layout make a pixel.
pub open spec fn scale_of(span: Option<(i64, i64)>) -> int {
    match span {
        Some((lo, hi)) if hi > lo => hi - lo,
        _ => 1,
    }
}

fn find_scale(span: Option<(i64, i64)>) -> (scale: i128)
    ensures
        scale == scale_of(span),
        1 <= scale <= 0xffff_ffff_ffff_ffff,
{
    match span {
        Some((lo, hi)) => if hi > lo {
            hi as i128 - lo as i128
        } else {
            1
        },
        None => 1,
    }
}

// ── Where cards start out ────────────────────────────────────────────────

/// Where a block belongs: at its time on the axis, or at the left end where it
/// has no time or the axis has no length.
pub open spec fn start_of(block: BlockView, span: Option<(i64, i64)>) -> int {
    let scale = scale_of(span);
    match (block.at, span) {
        (Some(at), Some((lo, hi))) if hi > lo => PAD * scale + (at - lo) * (BASE_TRACK - CARD_W - 2
            * PAD),
        _ => PAD * scale,
    }
}

/// A card and the place of its left edge.
#[derive(Debug, PartialEq)]
pub struct Card {
    pub x: i128,
    pub block: Block,
}

/// A card and its place, as contracts speak of it.
pub struct CardView {
    pub x: int,
    pub block: BlockView,
}

impl View for Card {
    type V = CardView;

    open spec fn view(&self) -> CardView {
        CardView { x: self.x as int, block: self.block@ }
    }
}

impl DeepView for Card {
    type V = CardView;

    open spec fn deep_view(&self) -> CardView {
        self@
    }
}

/// The order of cards from left to right: those with a time by their places,
/// those without one behind them.
pub open spec fn left_of() -> spec_fn(CardView, CardView) -> bool {
    |a: CardView, b: CardView| a.block.at is Some && (b.block.at is None || a.x < b.x)
}

impl Arrange for Card {
    open spec fn before() -> spec_fn(CardView, CardView) -> bool {
        left_of()
    }

    fn comes_before(&self, other: &Self) -> (r: bool) {
        self.block.at.is_some() && (other.block.at.is_none() || self.x < other.x)
    }
}

/// The cards of `blocks`, each where it belongs.
pub open spec fn started(blocks: Seq<BlockView>, span: Option<(i64, i64)>) -> Seq<CardView>
    decreases blocks.len(),
{
    if blocks.len() == 0 {
        Seq::empty()
    } else {
        started(blocks.drop_last(), span).push(
            CardView { x: start_of(blocks.last(), span), block: blocks.last() },
        )
    }
}

/// `cards`, each pushed to the right just as far as the one before it needs.
pub open spec fn pushed_apart(cards: Seq<CardView>, scale: int) -> Seq<CardView>
    decreases cards.len(),
{
    if cards.len() == 0 {
        Seq::empty()
    } else {
        let front = pushed_apart(cards.drop_last(), scale);
        let last = cards.last();
        if front.len() > 0 && last.x < front.last().x + (CARD_W + CARD_GAP) * scale {
            front.push(
                CardView { x: front.last().x + (CARD_W + CARD_GAP) * scale, block: last.block },
            )
        } else {
            front.push(last)
        }
    }
}

/// The cards of a lane as they are drawn.
pub open spec fn cards_of(blocks: Seq<BlockView>, span: Option<(i64, i64)>) -> Seq<CardView> {
    pushed_apart(arranged(started(blocks, span), left_of()), scale_of(span))
}

// ── Bounds ───────────────────────────────────────────────────────────────

spec fn far(n: nat) -> int {
    0x1_0000_0000_0000_0000 * (1000 + 168 * (n as int))
}

spec fn within(cards: Seq<CardView>, limit: int) -> bool {
    forall|i: int| 0 <= i < cards.len() ==> -limit <= (#[trigger] cards[i]).x <= limit
}

proof fn start_is_bounded(block: BlockView, span: Option<(i64, i64)>)
    ensures
        -far(0) <= start_of(block, span) <= far(0),
{
    if let (Some(at), Some((lo, hi))) = (block.at, span) {
        let usable = BASE_TRACK - CARD_W - 2 * PAD;
        let after = at - lo;
        assert(usable == 702);
        assert(-0x1_0000_0000_0000_0000 * 702 <= after * usable <= 0x1_0000_0000_0000_0000 * 702)
            by (nonlinear_arith)
            requires
                usable == 702,
                -0x1_0000_0000_0000_0000 <= after <= 0x1_0000_0000_0000_0000,
        ;
    }
}

fn start_cards(blocks: &Vec<Block>, span: Option<(i64, i64)>) -> (out: Vec<Card>)
    ensures
        out.deep_view() == started(blocks.deep_view(), span),
        within(out.deep_view(), far(0)),
{
    let ghost all = blocks.deep_view();
    let scale = find_scale(span);
    let mut out: Vec<Card> = Vec::new();
    let mut i: usize = 0;
    assert(out.deep_view() =~= Seq::<CardView>::empty());
    while i < blocks.len()
        invariant
            all == blocks.deep_view(),
            scale == scale_of(span),
            1 <= scale <= 0xffff_ffff_ffff_ffff,
            i <= blocks@.len(),
            out.deep_view() == started(all.take(i as int), span),
            within(out.deep_view(), far(0)),
        decreases blocks.len() - i,
    {
        assert(all.take(i + 1).drop_last() =~= all.take(i as int));
        assert(all.take(i + 1).last() == blocks@[i as int]@);
        proof {
            start_is_bounded(blocks@[i as int]@, span);
        }
        let at = blocks[i].at;
        let x: i128 = match (at, span) {
            (Some(at), Some((lo, hi))) => if hi > lo {
                PAD * scale + (at as i128 - lo as i128) * (BASE_TRACK - CARD_W - 2 * PAD)
            } else {
                PAD * scale
            },
            _ => PAD * scale,
        };
        let ghost before = out.deep_view();
        let card = Card { x, block: blocks[i].clone() };
        let ghost view = card@;
        assert(view.x == start_of(blocks@[i as int]@, span));
        out.push(card);
        assert(out.deep_view() =~= before.push(view));
        i = i + 1;
    }
    assert(all.take(i as int) =~= all);
    out
}

proof fn arranged_within(cards: Seq<CardView>, limit: int)
    requires
        within(cards, limit),
    ensures
        within(arranged(cards, left_of()), limit),
        arranged(cards, left_of()).len() == cards.len(),
{
    let sorted = arranged(cards, left_of());
    arranged_is_permutation(cards, left_of());
    same_items(sorted, cards);
    assert forall|i: int| 0 <= i < sorted.len() implies -limit <= (#[trigger] sorted[i]).x
        <= limit by {
        assert(sorted.contains(sorted[i]));
        let k = choose|k: int| 0 <= k < cards.len() && cards[k] == sorted[i];
        assert(-limit <= cards[k].x <= limit);
    }
}

proof fn pushed_within(cards: Seq<CardView>, scale: int, limit: int)
    requires
        within(cards, limit),
        1 <= scale <= 0x1_0000_0000_0000_0000,
    ensures
        pushed_apart(cards, scale).len() == cards.len(),
        within(
            pushed_apart(cards, scale),
            limit + 0x1_0000_0000_0000_0000 * (168 * (cards.len() as int)),
        ),
    decreases cards.len(),
{
    if cards.len() > 0 {
        let front = cards.drop_last();
        assert(within(front, limit)) by {
            assert forall|i: int| 0 <= i < front.len() implies -limit <= (#[trigger] front[i]).x
                <= limit by {
                assert(front[i] == cards[i]);
            }
        }
        pushed_within(front, scale, limit);
        let out = pushed_apart(cards, scale);
        let early = pushed_apart(front, scale);
        let step = (CARD_W + CARD_GAP) * scale;
        assert(0 <= step <= 168 * 0x1_0000_0000_0000_0000) by (nonlinear_arith)
            requires
                step == (CARD_W + CARD_GAP) * scale,
                CARD_W + CARD_GAP == 168,
                1 <= scale <= 0x1_0000_0000_0000_0000,
        ;
        assert(cards[cards.len() - 1] == cards.last());
        let wide = limit + 0x1_0000_0000_0000_0000 * (168 * (cards.len() as int));
        assert forall|i: int| 0 <= i < out.len() implies -wide <= (#[trigger] out[i]).x <= wide by {
            if i < early.len() {
                assert(out[i] == early[i]);
            } else if early.len() > 0 {
                assert(early[early.len() - 1] == early.last());
            }
        }
    }
}

fn push_cards(cards: Vec<Card>, scale: i128) -> (out: Vec<Card>)
    requires
        1 <= scale <= 0xffff_ffff_ffff_ffff,
        cards@.len() <= MANY_CARDS,
        within(cards.deep_view(), far(MANY_CARDS as nat)),
    ensures
        out.deep_view() == pushed_apart(cards.deep_view(), scale as int),
{
    let ghost all = cards.deep_view();
    let mut out: Vec<Card> = Vec::new();
    let mut i: usize = 0;
    assert(out.deep_view() =~= Seq::<CardView>::empty());
    while i < cards.len()
        invariant
            1 <= scale <= 0xffff_ffff_ffff_ffff,
            cards@.len() <= MANY_CARDS,
            all == cards.deep_view(),
            within(all, far(MANY_CARDS as nat)),
            i <= cards@.len(),
            out@.len() == i,
            out.deep_view() == pushed_apart(all.take(i as int), scale as int),
        decreases cards.len() - i,
    {
        let card = &cards[i];
        let ghost upto = all.take(i + 1);
        assert(upto.drop_last() =~= all.take(i as int));
        assert(upto.last() == card@);
        let ghost early = out.deep_view();
        let mut x: i128 = card.x;
        if out.len() > 0 {
            proof {
                let front = all.take(i as int);
                assert(within(front, far(MANY_CARDS as nat))) by {
                    assert forall|k: int| 0 <= k < front.len() implies -far(MANY_CARDS as nat) <= (
                    #[trigger] front[k]).x <= far(MANY_CARDS as nat) by {
                        assert(front[k] == all[k]);
                    }
                }
                pushed_within(front, scale as int, far(MANY_CARDS as nat));
                assert(early[i - 1] == out@[i - 1]@);
                assert(early.last() == early[i - 1]);
            }
            let next = out[out.len() - 1].x + (CARD_W + CARD_GAP) * scale;
            if x < next {
                x = next;
            }
        }
        let placed = Card { x, block: card.block.clone() };
        let ghost view = placed@;
        out.push(placed);
        assert(out.deep_view() =~= early.push(view));
        i = i + 1;
    }
    assert(all.take(i as int) =~= all);
    out
}

fn place_cards(blocks: &Vec<Block>, span: Option<(i64, i64)>) -> (out: Vec<Card>)
    requires
        blocks@.len() <= MANY_CARDS,
    ensures
        out.deep_view() == cards_of(blocks.deep_view(), span),
        within(out.deep_view(), 2 * far(MANY_CARDS as nat)),
{
    let scale = find_scale(span);
    let cards = start_cards(blocks, span);
    proof {
        started_keeps_length(blocks.deep_view(), span);
        let all = cards.deep_view();
        assert(within(all, far(MANY_CARDS as nat))) by {
            assert(far(0) <= far(MANY_CARDS as nat));
        }
        arranged_within(all, far(MANY_CARDS as nat));
        pushed_within(arranged(all, left_of()), scale as int, far(MANY_CARDS as nat));
    }
    let sorted = arrange(cards);
    assert(sorted.deep_view().len() == sorted@.len());
    push_cards(sorted, scale)
}

proof fn started_keeps_length(blocks: Seq<BlockView>, span: Option<(i64, i64)>)
    ensures
        started(blocks, span).len() == blocks.len(),
        forall|i: int|
            0 <= i < blocks.len() ==> (#[trigger] started(blocks, span)[i]).block == blocks[i]
                && started(blocks, span)[i].x == start_of(blocks[i], span),
    decreases blocks.len(),
{
    if blocks.len() > 0 {
        let front = blocks.drop_last();
        started_keeps_length(front, span);
        assert forall|i: int| 0 <= i < blocks.len() implies (#[trigger] started(
            blocks,
            span,
        )[i]).block == blocks[i] && started(blocks, span)[i].x == start_of(blocks[i], span) by {
            if i < front.len() {
                assert(started(blocks, span)[i] == started(front, span)[i]);
            }
        }
    }
}

// ── The whole track ──────────────────────────────────────────────────────

/// A lane and its cards.
#[derive(Debug, PartialEq)]
pub struct PlacedLane {
    pub lane: Lane,
    pub cards: Vec<Card>,
}

/// A lane and its cards, as contracts speak of it.
pub struct PlacedView {
    pub lane: LaneView,
    pub cards: Seq<CardView>,
}

impl View for PlacedLane {
    type V = PlacedView;

    open spec fn view(&self) -> PlacedView {
        PlacedView { lane: self.lane@, cards: self.cards.deep_view() }
    }
}

impl DeepView for PlacedLane {
    type V = PlacedView;

    open spec fn deep_view(&self) -> PlacedView {
        self@
    }
}

/// Where everything is drawn.
#[derive(Debug, PartialEq)]
pub struct Layout {
    pub lanes: Vec<PlacedLane>,
    /// How many units make a pixel.
    pub scale: i128,
    /// The width of the track, in units.
    pub width: i128,
}

/// Where everything is drawn, as contracts speak of it.
pub struct LayoutView {
    pub lanes: Seq<PlacedView>,
    pub scale: int,
    pub width: int,
}

impl View for Layout {
    type V = LayoutView;

    open spec fn view(&self) -> LayoutView {
        LayoutView {
            lanes: self.lanes.deep_view(),
            scale: self.scale as int,
            width: self.width as int,
        }
    }
}

/// The lanes that are drawn: all but those off the path, each with its cards.
pub open spec fn placed_lanes(lanes: Seq<LaneView>, span: Option<(i64, i64)>) -> Seq<PlacedView>
    decreases lanes.len(),
{
    if lanes.len() == 0 {
        Seq::empty()
    } else {
        let front = placed_lanes(lanes.drop_last(), span);
        let lane = lanes.last();
        if lane.state == LaneState::OffPath {
            front
        } else {
            front.push(PlacedView { lane, cards: cards_of(lane.blocks, span) })
        }
    }
}

/// How wide the track is: as wide as the base, or as the last card of any lane
/// needs.
pub open spec fn width_of(lanes: Seq<PlacedView>, scale: int) -> int
    decreases lanes.len(),
{
    if lanes.len() == 0 {
        BASE_TRACK * scale
    } else {
        let front = width_of(lanes.drop_last(), scale);
        let cards = lanes.last().cards;
        if cards.len() > 0 && cards.last().x + (CARD_W + PAD) * scale > front {
            cards.last().x + (CARD_W + PAD) * scale
        } else {
            front
        }
    }
}

/// Where everything of a trace is drawn.
pub open spec fn layout_of(trace: TraceView) -> LayoutView {
    let lanes = placed_lanes(trace.lanes, trace.span);
    let scale = scale_of(trace.span);
    LayoutView { lanes, scale, width: width_of(lanes, scale) }
}

/// Positions every block on a shared time scale, then nudges overlapping cards
/// apart within their lane. Cards are wide; two events milliseconds apart would
/// sit on top of each other: they keep their order and are pushed right just
/// enough. Blocks with no usable timestamp fall back to sequence order after the
/// ones that have times.
pub fn place(trace: &Trace) -> (out: Layout)
    requires
        forall|i: int|
            0 <= i < trace.lanes@.len() ==> (#[trigger] trace.lanes@[i]).blocks@.len()
                <= MANY_CARDS,
    ensures
        out@ == layout_of(trace@),
        0 <= out.width <= 0x1000_0000_0000_0000_0000_0000_0000_0000,
{
    let ghost all = trace.lanes.deep_view();
    let span = trace.span;
    let scale = find_scale(span);
    let mut lanes: Vec<PlacedLane> = Vec::new();
    let mut width: i128 = BASE_TRACK * scale;
    let mut i: usize = 0;
    assert(lanes.deep_view() =~= Seq::<PlacedView>::empty());
    while i < trace.lanes.len()
        invariant
            forall|i: int|
                0 <= i < trace.lanes@.len() ==> (#[trigger] trace.lanes@[i]).blocks@.len()
                    <= MANY_CARDS,
            all == trace.lanes.deep_view(),
            span == trace.span,
            scale == scale_of(span),
            1 <= scale <= 0xffff_ffff_ffff_ffff,
            i <= trace.lanes@.len(),
            lanes.deep_view() == placed_lanes(all.take(i as int), span),
            width == width_of(lanes.deep_view(), scale as int),
            0 <= width <= 0x1000_0000_0000_0000_0000_0000_0000_0000,
        decreases trace.lanes.len() - i,
    {
        let lane = &trace.lanes[i];
        assert(all.take(i + 1).drop_last() =~= all.take(i as int));
        assert(all.take(i + 1).last() == lane@);
        if lane.state != LaneState::OffPath {
            let cards = place_cards(&lane.blocks, span);
            let ghost views = cards.deep_view();
            assert(views.len() == cards@.len());
            if cards.len() > 0 {
                assert(views.last() == cards@[cards@.len() - 1]@);
                assert(views[views.len() - 1] == views.last());
                let end = cards[cards.len() - 1].x + (CARD_W + PAD) * scale;
                if end > width {
                    width = end;
                }
            }
            let ghost before = lanes.deep_view();
            let placed = PlacedLane { lane: lane.clone(), cards };
            let ghost view = placed@;
            lanes.push(placed);
            assert(lanes.deep_view() =~= before.push(view));
            assert(lanes.deep_view().drop_last() =~= before);
        }
        i = i + 1;
    }
    assert(all.take(i as int) =~= all);
    Layout { lanes, scale, width }
}

// ── The time axis ────────────────────────────────────────────────────────

/// A tick of the time axis.
#[derive(Debug, PartialEq)]
pub struct Tick {
    /// Its place, in quarters of a layout's units.
    pub x: i128,
    pub text: String,
}

/// A tick of the time axis, as contracts speak of it.
pub struct TickView {
    pub x: int,
    pub text: Text,
}

impl View for Tick {
    type V = TickView;

    open spec fn view(&self) -> TickView {
        TickView { x: self.x as int, text: self.text@ }
    }
}

impl DeepView for Tick {
    type V = TickView;

    open spec fn deep_view(&self) -> TickView {
        self@
    }
}

/// How much later than the beginning the tick with number `i` is, on an axis of
/// the given length: as many quarters of it, as computed in double precision.
pub open spec fn tick_gap(length: nat, i: nat) -> int {
    let whole = nearest(DOUBLE as nat, length, 1, 0);
    let part = floor(nearest(DOUBLE as nat, whole.m * i, 4, whole.e));
    if part <= i64::MAX {
        part as int
    } else {
        i64::MAX as int
    }
}

fn find_tick_gap(length: u64, i: u64) -> (out: i64)
    requires
        0 < length <= i64::MAX,
        0 < i <= 4,
    ensures
        out == tick_gap(length as nat, i as nat),
{
    let whole = round(DOUBLE, length as u128, 1, 0);
    assert(whole.m * i <= 0x20_0000_0000_0000 * 4) by (nonlinear_arith)
        requires
            whole.m <= 0x20_0000_0000_0000,
            i <= 4,
    ;
    let n = (whole.m as u128) * (i as u128);
    proof {
        let low = DOUBLE as nat;
        lemma2_to64();
        lemma2_to64_rest();
        if length < 2 * DOUBLE {
            nearest_from_below(low, length as nat, 1, 0, 0, 52);
        } else {
            nearest_from_above(low, length as nat, 1, 0, 10);
        }
        assert(low <= n <= 8 * low) by (nonlinear_arith)
            requires
                n == whole.m * i,
                low <= whole.m < 2 * low,
                1 <= i <= 4,
        ;
        nearest_holds(low, n as nat, 4, whole.e as int, 3);
    }
    let part = round(DOUBLE, n, 4, whole.e);
    let gap = find_floor(part.m as u128, part.e);
    if gap <= 0x7fff_ffff_ffff_ffff {
        gap as i64
    } else {
        i64::MAX
    }
}

/// The tick with number `i` of an axis from `lo` to `hi` on a track of the given
/// width: the first shows when the trace began, the others how much later they
/// are.
pub open spec fn tick_of(lo: int, hi: int, width: int, i: int) -> TickView {
    let scale = hi - lo;
    TickView {
        x: 4 * PAD * scale + i * (width - (CARD_W + 2 * PAD) * scale),
        text: if i == 0 {
            time_text(lo as i64)
        } else {
            gap_text(tick_gap(scale as nat, i as nat))
        },
    }
}

/// The ticks of a trace with the given span, on a track of the given width: one
/// where all of it is a single instant, none where there is no time at all.
pub open spec fn ticks_of(span: Option<(i64, i64)>, width: int) -> Seq<TickView> {
    match span {
        None => Seq::empty(),
        Some((lo, hi)) => if hi <= lo {
            seq![TickView { x: 4 * PAD, text: time_text(lo) }]
        } else {
            Seq::new(TICKS as nat, |i: int| tick_of(lo as int, hi as int, width, i))
        },
    }
}

/// The ticks of the time axis.
pub fn axis_ticks(span: Option<(i64, i64)>, width: i128) -> (out: Vec<Tick>)
    requires
        0 <= width <= 0x1000_0000_0000_0000_0000_0000_0000_0000,
        match span {
            Some((lo, hi)) => hi - lo <= i64::MAX,
            None => true,
        },
    ensures
        out.deep_view() == ticks_of(span, width as int),
{
    let mut out: Vec<Tick> = Vec::new();
    match span {
        None => {
            assert(out.deep_view() =~= ticks_of(span, width as int));
            out
        },
        Some((lo, hi)) => {
            if hi <= lo {
                out.push(Tick { x: 4 * PAD, text: format_time(lo) });
                assert(out.deep_view() =~= ticks_of(span, width as int));
                return out;
            }
            let scale: i128 = hi as i128 - lo as i128;
            let ghost want = ticks_of(span, width as int);
            let mut i: usize = 0;
            while i < TICKS
                invariant
                    0 <= width <= 0x1000_0000_0000_0000_0000_0000_0000_0000,
                    lo < hi,
                    hi - lo <= i64::MAX,
                    scale == hi - lo,
                    want == Seq::new(
                        TICKS as nat,
                        |i: int| tick_of(lo as int, hi as int, width as int, i),
                    ),
                    i <= TICKS,
                    out@.len() == i,
                    forall|j: int| 0 <= j < i ==> (#[trigger] out@[j])@ == want[j],
                decreases TICKS - i,
            {
                let k = i as i128;
                assert((CARD_W + 2 * PAD) * scale == 198 * scale) by (nonlinear_arith)
                    requires
                        CARD_W + 2 * PAD == 198,
                ;
                let room = width - (CARD_W + 2 * PAD) * scale;
                assert(-5 * 0x1000_0000_0000_0000_0000_0000_0000_0000 <= k * room <= 5
                    * 0x1000_0000_0000_0000_0000_0000_0000_0000) by (nonlinear_arith)
                    requires
                        0 <= k <= 5,
                        -0x1000_0000_0000_0000_0000_0000_0000_0000 <= room
                            <= 0x1000_0000_0000_0000_0000_0000_0000_0000,
                ;
                assert(4 * PAD * scale == 80 * scale) by (nonlinear_arith)
                    requires
                        PAD == 20,
                ;
                let x = 4 * PAD * scale + k * room;
                let text = if i == 0 {
                    format_time(lo)
                } else {
                    format_gap(find_tick_gap(scale as u64, i as u64))
                };
                let tick = Tick { x, text };
                assert(tick@ == want[i as int]);
                out.push(tick);
                i = i + 1;
            }
            assert(out.deep_view() =~= want);
            out
        },
    }
}

// ── What was found ───────────────────────────────────────────────────────

/// What a trace is headed by: the key and the value. Where only one value holds
/// the fragment that was typed, it is that value: the two differ, and the real
/// one is the answer.
pub fn heading(key_label: &str, value: &str, partial: bool, matches: &Vec<(String, usize)>) -> (out:
    String)
    ensures
        out@ == key_label@ + " = "@ + (if partial && matches@.len() == 1 {
            matches@[0].0@
        } else {
            value@
        }),
{
    let front = concat(key_label, " = ");
    if partial && matches.len() == 1 {
        concat(front.as_str(), matches[0].0.as_str())
    } else {
        concat(front.as_str(), value)
    }
}

/// What is shown of a trace.
#[derive(Debug, Clone, Copy, PartialEq, Eq, Structural)]
pub enum TraceBody {
    /// That no document carries the value.
    Nothing,
    /// The values that match, to pick one. Drawing them together would silently
    /// interleave unrelated flows on one timeline, which is worse than asking.
    Choice,
    Timeline,
}

/// What is shown of a trace with so many documents and matching values.
pub fn trace_body(blocks_found: usize, matches: &Vec<(String, usize)>) -> (out: TraceBody)
    ensures
        out == (if blocks_found == 0 {
            TraceBody::Nothing
        } else if matches@.len() > 1 {
            TraceBody::Choice
        } else {
            TraceBody::Timeline
        }),
{
    if blocks_found == 0 {
        TraceBody::Nothing
    } else if matches.len() > 1 {
        TraceBody::Choice
    } else {
        TraceBody::Timeline
    }
}

// ── Lanes ────────────────────────────────────────────────────────────────

/// How a lane in the given state is drawn.
pub open spec fn class_of(state: LaneState) -> Text {
    match state {
        LaneState::Reached => "lane reached"@,
        LaneState::Awaiting => "lane awaiting"@,
        LaneState::Failed(_) => "lane failed"@,
        LaneState::OffPath => "lane off-path"@,
    }
}

/// How a lane in the given state is drawn.
pub fn lane_class(state: LaneState) -> (out: &'static str)
    ensures
        out@ == class_of(state),
{
    match state {
        LaneState::Reached => "lane reached",
        LaneState::Awaiting => "lane awaiting",
        LaneState::Failed(_) => "lane failed",
        LaneState::OffPath => "lane off-path",
    }
}

/// How long after the first event anywhere a lane saw the value: shown where
/// both are known and it was later.
pub open spec fn gap_of(start: Option<i64>, lane: LaneView) -> Option<Text> {
    match (start, earliest(lane.blocks)) {
        (Some(start), Some(at)) if at > start => Some(gap_text(at - start)),
        _ => None,
    }
}

/// How long after the first event anywhere a lane saw the value.
pub fn lane_gap(start: Option<i64>, lane: &Lane) -> (out: Option<String>)
    requires
        match (start, earliest(lane@.blocks)) {
            (Some(start), Some(at)) => at - start <= i64::MAX,
            _ => true,
        },
    ensures
        out.deep_view() == gap_of(start, lane@),
{
    match (start, lane.first_at()) {
        (Some(start), Some(at)) => if at > start {
            Some(format_gap((at as i128 - start as i128) as i64))
        } else {
            None
        },
        _ => None,
    }
}

/// How a card is drawn.
pub open spec fn card_class_of(errored: bool, selected: bool) -> Text {
    "block"@ + (if errored {
        " errored"@
    } else {
        Seq::empty()
    }) + (if selected {
        " selected"@
    } else {
        Seq::empty()
    })
}

/// How a card is drawn.
pub fn card_class(errored: bool, selected: bool) -> (out: String)
    ensures
        out@ == card_class_of(errored, selected),
{
    let mut out = "block".to_owned();
    assert(out@ + Seq::<char>::empty() =~= out@);
    if errored {
        out.append(" errored");
    }
    assert(out@ + Seq::<char>::empty() =~= out@);
    if selected {
        out.append(" selected");
    }
    out
}

/// How many of `blocks` are failed steps.
pub open spec fn failures_among(blocks: Seq<BlockView>, rules: Seq<RuleView>) -> nat
    decreases blocks.len(),
{
    if blocks.len() == 0 {
        0
    } else {
        failures_among(blocks.drop_last(), rules) + (if is_failure(blocks.last().doc, rules) {
            1nat
        } else {
            0nat
        })
    }
}

/// How many cards of a lane are failed steps. A red card can sit far off-screen
/// on a wide timeline, so the count has to be visible without scrolling.
pub fn lane_errors(lane: &Lane, rules: &Vec<ErrorRule>) -> (n: usize)
    ensures
        n == failures_among(lane@.blocks, rules.deep_view()),
{
    let ghost all = lane.blocks.deep_view();
    let mut n: usize = 0;
    let mut i: usize = 0;
    while i < lane.blocks.len()
        invariant
            all == lane.blocks.deep_view(),
            i <= lane.blocks@.len(),
            n <= i,
            n == failures_among(all.take(i as int), rules.deep_view()),
        decreases lane.blocks.len() - i,
    {
        assert(all.take(i + 1).drop_last() =~= all.take(i as int));
        assert(all.take(i + 1).last() == lane.blocks@[i as int]@);
        if is_error(&lane.blocks[i].doc, rules) {
            n = n + 1;
        }
        i = i + 1;
    }
    assert(all.take(i as int) =~= all);
    n
}

proof fn failures_add_up(a: Seq<BlockView>, b: Seq<BlockView>, rules: Seq<RuleView>)
    ensures
        failures_among(a + b, rules) == failures_among(a, rules) + failures_among(b, rules),
        failures_among(b, rules) <= b.len(),
    decreases b.len(),
{
    if b.len() == 0 {
        assert(a + b =~= a);
    } else {
        assert((a + b).drop_last() =~= a + b.drop_last());
        failures_add_up(a, b.drop_last(), rules);
    }
}

/// How many cards of a trace are failed steps.
pub fn error_count(trace: &Trace, rules: &Vec<ErrorRule>) -> (n: usize)
    requires
        all_blocks(trace@.lanes).len() <= usize::MAX,
    ensures
        n == failures_among(all_blocks(trace@.lanes), rules.deep_view()),
{
    let ghost all = trace.lanes.deep_view();
    let mut n: usize = 0;
    let mut i: usize = 0;
    while i < trace.lanes.len()
        invariant
            all == trace.lanes.deep_view(),
            all_blocks(all).len() <= usize::MAX,
            i <= trace.lanes@.len(),
            n == failures_among(all_blocks(all.take(i as int)), rules.deep_view()),
        decreases trace.lanes.len() - i,
    {
        let lane = &trace.lanes[i];
        let ghost upto = all.take(i + 1);
        assert(upto.drop_last() =~= all.take(i as int));
        assert(upto.last() == lane@);
        proof {
            failures_add_up(all_blocks(all.take(i as int)), lane@.blocks, rules.deep_view());
            failures_add_up(Seq::empty(), all_blocks(upto), rules.deep_view());
            assert(Seq::<BlockView>::empty() + all_blocks(upto) =~= all_blocks(upto));
            all_blocks_grow(all, i + 1);
        }
        n = n + lane_errors(lane, rules);
        i = i + 1;
    }
    assert(all.take(i as int) =~= all);
    n
}

/// The names of the lanes off the path.
pub open spec fn off_path_names(lanes: Seq<LaneView>) -> Seq<Text>
    decreases lanes.len(),
{
    if lanes.len() == 0 {
        Seq::empty()
    } else if lanes.last().state == LaneState::OffPath {
        off_path_names(lanes.drop_last()).push(lanes.last().name)
    } else {
        off_path_names(lanes.drop_last())
    }
}

/// The names of the lanes off the path, which are listed below the track.
pub fn off_path(trace: &Trace) -> (out: Vec<String>)
    ensures
        out.deep_view() == off_path_names(trace@.lanes),
{
    let ghost all = trace.lanes.deep_view();
    let mut out: Vec<String> = Vec::new();
    let mut i: usize = 0;
    assert(out.deep_view() =~= Seq::<Text>::empty());
    while i < trace.lanes.len()
        invariant
            all == trace.lanes.deep_view(),
            i <= trace.lanes@.len(),
            out.deep_view() == off_path_names(all.take(i as int)),
        decreases trace.lanes.len() - i,
    {
        let lane = &trace.lanes[i];
        assert(all.take(i + 1).drop_last() =~= all.take(i as int));
        assert(all.take(i + 1).last() == lane@);
        if lane.state == LaneState::OffPath {
            let ghost before = out.deep_view();
            out.push(lane.name.clone());
            assert(out.deep_view() =~= before.push(lane.name@));
        }
        i = i + 1;
    }
    assert(all.take(i as int) =~= all);
    out
}

// ── What holds of every layout ───────────────────────────────────────────

/// Whether `cards` stand apart by at least a card and a gap.
pub open spec fn stand_apart(cards: Seq<CardView>, scale: int) -> bool {
    forall|i: int, j: int|
        0 <= i < j < cards.len() ==> (#[trigger] cards[j]).x - (#[trigger] cards[i]).x >= (CARD_W
            + CARD_GAP) * scale
}

proof fn pushed_cards_stand_apart(cards: Seq<CardView>, scale: int)
    requires
        scale >= 1,
    ensures
        stand_apart(pushed_apart(cards, scale), scale),
        pushed_apart(cards, scale).len() == cards.len(),
        forall|i: int|
            0 <= i < cards.len() ==> (#[trigger] pushed_apart(cards, scale)[i]).block
                == cards[i].block && pushed_apart(cards, scale)[i].x >= cards[i].x,
    decreases cards.len(),
{
    let out = pushed_apart(cards, scale);
    if cards.len() > 0 {
        let front = cards.drop_last();
        let early = pushed_apart(front, scale);
        let step = (CARD_W + CARD_GAP) * scale;
        pushed_cards_stand_apart(front, scale);
        assert(step >= 0) by (nonlinear_arith)
            requires
                step == (CARD_W + CARD_GAP) * scale,
                CARD_W + CARD_GAP == 168,
                scale >= 1,
        ;
        assert forall|i: int| 0 <= i < cards.len() implies (#[trigger] out[i]).block
            == cards[i].block && out[i].x >= cards[i].x by {
            if i < front.len() {
                assert(out[i] == early[i]);
                assert(cards[i] == front[i]);
            }
        }
        assert forall|i: int, j: int| 0 <= i < j < out.len() implies (#[trigger] out[j]).x - (
        #[trigger] out[i]).x >= step by {
            assert(out[i] == early[i]);
            if j < early.len() {
                assert(out[j] == early[j]);
            } else {
                let last = early.len() - 1;
                assert(early[last] == early.last());
                if i < last {
                    assert(early[last].x - early[i].x >= step);
                }
            }
        }
    }
}

/// Cards of a lane never overlap: any two of them stand apart by at least the
/// width of a card and a gap. Pushing them apart keeps their order from left to
/// right, and moves none to the left of where it belongs.
pub proof fn cards_never_overlap(blocks: Seq<BlockView>, span: Option<(i64, i64)>)
    ensures
        ({
            let cards = cards_of(blocks, span);
            let sorted = arranged(started(blocks, span), left_of());
            &&& stand_apart(cards, scale_of(span))
            &&& cards.len() == sorted.len()
            &&& in_order(sorted, left_of())
            &&& forall|i: int|
                0 <= i < cards.len() ==> (#[trigger] cards[i]).block == sorted[i].block
                    && cards[i].x >= sorted[i].x
        }),
{
    let sorted = arranged(started(blocks, span), left_of());
    pushed_cards_stand_apart(sorted, scale_of(span));
    let before = left_of();
    assert forall|a: CardView, b: CardView| #[trigger] before(a, b) implies !before(b, a) by {}
    assert forall|a: CardView, b: CardView, c: CardView|
        !#[trigger] before(a, b) && !#[trigger] before(b, c) implies !before(a, c) by {}
    arranged_in_order(started(blocks, span), before);
}

/// The blocks of `cards`.
pub open spec fn blocks_on(cards: Seq<CardView>) -> Seq<BlockView> {
    Seq::new(cards.len(), |i: int| cards[i].block)
}

proof fn blocks_on_some(cards: Seq<CardView>, keep: spec_fn(BlockView) -> bool)
    ensures
        blocks_on(cards).filter(keep) == blocks_on(cards.filter(|c: CardView| keep(c.block))),
    decreases cards.len(),
{
    let kept = |c: CardView| keep(c.block);
    reveal(Seq::filter);
    if cards.len() > 0 {
        let front = cards.drop_last();
        blocks_on_some(front, keep);
        assert(blocks_on(cards).drop_last() =~= blocks_on(front));
        if keep(cards.last().block) {
            assert(blocks_on(front.filter(kept).push(cards.last())) =~= blocks_on(
                front.filter(kept),
            ).push(cards.last().block));
        }
    } else {
        assert(blocks_on(cards).filter(keep) =~= blocks_on(cards.filter(kept)));
    }
}

/// Cards stand in the order of time. Those without a time stand behind all that
/// have one, in the order that their documents came in; and on an axis that has
/// a length, no card stands behind one that is later.
pub proof fn cards_stand_in_order_of_time(blocks: Seq<BlockView>, span: Option<(i64, i64)>)
    ensures
        ({
            let cards = cards_of(blocks, span);
            let timeless = |b: BlockView| b.at is None;
            &&& forall|i: int, j: int|
                0 <= i < j < cards.len() && (#[trigger] cards[j]).block.at is Some ==> (
                #[trigger] cards[i]).block.at is Some
            &&& blocks_on(cards).filter(timeless) == blocks.filter(timeless)
            &&& span is Some && (span->0).0 < (span->0).1 ==> forall|i: int, j: int|
                0 <= i < j < cards.len() && (#[trigger] cards[j]).block.at is Some ==> ((
                #[trigger] cards[i]).block.at->0) <= (cards[j].block.at->0)
        }),
{
    let starts = started(blocks, span);
    let sorted = arranged(starts, left_of());
    let cards = cards_of(blocks, span);
    let timeless = |b: BlockView| b.at is None;
    cards_never_overlap(blocks, span);
    started_keeps_length(blocks, span);
    arranged_is_stable(starts, left_of(), |c: CardView| timeless(c.block));
    blocks_on_some(starts, timeless);
    blocks_on_some(sorted, timeless);
    assert(blocks_on(starts) =~= blocks);
    assert(blocks_on(sorted) =~= blocks_on(cards));
    arranged_is_permutation(starts, left_of());
    same_items(sorted, starts);
    assert forall|i: int| 0 <= i < sorted.len() implies (#[trigger] sorted[i]).x == start_of(
        sorted[i].block,
        span,
    ) by {
        assert(sorted.contains(sorted[i]));
        let k = choose|k: int| 0 <= k < starts.len() && starts[k] == sorted[i];
        assert(starts[k].x == start_of(blocks[k], span));
    }
    assert forall|i: int, j: int|
        0 <= i < j < cards.len() && (#[trigger] cards[j]).block.at is Some implies (
    #[trigger] cards[i]).block.at is Some && (span is Some && (span->0).0 < (span->0).1 ==> (
    cards[i].block.at->0) <= (cards[j].block.at->0)) by {
        let before = left_of();
        assert(!before(sorted[j], sorted[i]));
        if span is Some && (span->0).0 < (span->0).1 {
            let lo = (span->0).0;
            let first = cards[i].block.at->0;
            let second = cards[j].block.at->0;
            let usable = BASE_TRACK - CARD_W - 2 * PAD;
            assert((first - lo) * usable <= (second - lo) * usable);
            assert(first <= second) by (nonlinear_arith)
                requires
                    usable == 702,
                    (first - lo) * usable <= (second - lo) * usable,
            ;
        }
    }
}

/// Every document of a lane has its card, and no card stands for anything else.
pub proof fn every_block_has_its_card(blocks: Seq<BlockView>, span: Option<(i64, i64)>)
    ensures
        blocks_on(cards_of(blocks, span)).to_multiset() == blocks.to_multiset(),
{
    let starts = started(blocks, span);
    let sorted = arranged(starts, left_of());
    pushed_cards_stand_apart(sorted, scale_of(span));
    assert(blocks_on(cards_of(blocks, span)) =~= blocks_on(sorted));
    arranged_is_permutation(starts, left_of());
    started_keeps_length(blocks, span);
    assert(blocks_on(starts) =~= blocks);
    blocks_of_same_cards(sorted, starts);
}

proof fn blocks_of_same_cards(a: Seq<CardView>, b: Seq<CardView>)
    requires
        a.to_multiset() == b.to_multiset(),
    ensures
        blocks_on(a).to_multiset() == blocks_on(b).to_multiset(),
    decreases a.len(),
{
    broadcast use vstd::seq_lib::group_to_multiset_ensures;

    same_items(a, b);
    if a.len() == 0 {
        assert(blocks_on(a) =~= blocks_on(b));
    } else {
        let card = a.last();
        let front = a.drop_last();
        assert(a[a.len() - 1] == card);
        assert(a.contains(card));
        let k = choose|k: int| 0 <= k < b.len() && b[k] == card;
        let rest = b.remove(k);
        assert(a =~= front.push(card));
        assert(rest.to_multiset() =~= b.to_multiset().remove(card));
        assert(front.to_multiset() =~= a.to_multiset().remove(card));
        blocks_of_same_cards(front, rest);
        assert(blocks_on(a) =~= blocks_on(front).push(card.block));
        assert(blocks_on(rest) =~= blocks_on(b).remove(k));
        assert(blocks_on(b)[k] == card.block);
        assert(blocks_on(rest).to_multiset() =~= blocks_on(b).to_multiset().remove(card.block));
        assert(blocks_on(b).contains(card.block));
        assert(blocks_on(a).to_multiset() =~= blocks_on(b).to_multiset());
    }
}

/// The track is never narrower than its base, and holds every card, with room
/// at its right end.
pub proof fn track_holds_every_card(lanes: Seq<PlacedView>, scale: int, i: int, k: int)
    requires
        scale >= 1,
        0 <= i < lanes.len(),
        0 <= k < lanes[i].cards.len(),
        stand_apart(lanes[i].cards, scale),
    ensures
        width_of(lanes, scale) >= BASE_TRACK * scale,
        lanes[i].cards[k].x + (CARD_W + PAD) * scale <= width_of(lanes, scale),
    decreases lanes.len(),
{
    let front = lanes.drop_last();
    width_grows(lanes, scale);
    if i < front.len() {
        track_holds_every_card(front, scale, i, k);
    } else {
        let cards = lanes.last().cards;
        let last = cards.len() - 1;
        assert(cards[last] == cards.last());
        if k < last {
            assert(cards[last].x - cards[k].x >= (CARD_W + CARD_GAP) * scale);
            assert((CARD_W + CARD_GAP) * scale >= 0) by (nonlinear_arith)
                requires
                    CARD_W + CARD_GAP == 168,
                    scale >= 1,
            ;
        }
    }
}

proof fn width_grows(lanes: Seq<PlacedView>, scale: int)
    ensures
        width_of(lanes, scale) >= BASE_TRACK * scale,
    decreases lanes.len(),
{
    if lanes.len() > 0 {
        width_grows(lanes.drop_last(), scale);
    }
}

/// Every lane that is on the path keeps its row, empty or not, and a lane off
/// the path has none.
pub proof fn lanes_on_path_keep_their_row(lanes: Seq<LaneView>, span: Option<(i64, i64)>, lane: LaneView)
    ensures
        lanes.contains(lane) && lane.state != LaneState::OffPath <==> exists|i: int|
            0 <= i < placed_lanes(lanes, span).len() && (#[trigger] placed_lanes(lanes, span)[i]).lane
                == lane,
    decreases lanes.len(),
{
    let placed = placed_lanes(lanes, span);
    if lanes.len() > 0 {
        let front = lanes.drop_last();
        let early = placed_lanes(front, span);
        lanes_on_path_keep_their_row(front, span, lane);
        assert(lanes =~= front.push(lanes.last()));
        if lanes.contains(lane) && lane.state != LaneState::OffPath {
            let k = choose|k: int| 0 <= k < lanes.len() && lanes[k] == lane;
            if k < front.len() {
                assert(front[k] == lane);
                let i = choose|i: int| 0 <= i < early.len() && (#[trigger] early[i]).lane == lane;
                assert(placed[i].lane == lane);
            } else {
                assert(placed[placed.len() - 1].lane == lane);
            }
        }
        if exists|i: int| 0 <= i < placed.len() && (#[trigger] placed[i]).lane == lane {
            let i = choose|i: int| 0 <= i < placed.len() && (#[trigger] placed[i]).lane == lane;
            if i < early.len() {
                assert(early[i].lane == lane);
                let k = choose|k: int| 0 <= k < front.len() && front[k] == lane;
                assert(lanes[k] == lane);
            } else {
                assert(lanes[lanes.len() - 1] == lane);
            }
        }
    }
}

// ── Where exactly things stand ───────────────────────────────────────────

/// Where a card would stand by itself: 20 pixels from the left for the first
/// instant of the trace, as far from the right end of a track of 900 pixels as a
/// card of 158 and 20 more for the last, and in proportion in between. One
/// without a time, or on an axis without a length, would stand on the left.
pub open spec fn proper_place(at: Option<i64>, span: Option<(i64, i64)>) -> int {
    match (at, span) {
        (Some(at), Some((lo, hi))) if lo < hi => 20 * (hi - lo) + 702 * (at - lo),
        (_, Some((lo, hi))) if lo < hi => 20 * (hi - lo),
        _ => 20,
    }
}

/// How many units of a layout make a pixel: as many as the span is long, so that
/// every place is a whole number of them.
pub open spec fn unit_of(span: Option<(i64, i64)>) -> int {
    match span {
        Some((lo, hi)) if lo < hi => hi - lo,
        _ => 1,
    }
}

proof fn starts_are_proper(block: BlockView, span: Option<(i64, i64)>)
    ensures
        start_of(block, span) == proper_place(block.at, span),
        scale_of(span) == unit_of(span),
{
    if let Some((lo, hi)) = span {
        if lo < hi {
            let scale = hi - lo;
            assert(PAD * scale == 20 * (hi - lo)) by (nonlinear_arith)
                requires
                    PAD == 20,
                    scale == hi - lo,
            ;
            if let Some(at) = block.at {
                let usable = BASE_TRACK - CARD_W - 2 * PAD;
                let after = at - lo;
                assert(after * usable == 702 * (at - lo)) by (nonlinear_arith)
                    requires
                        usable == 702,
                        after == at - lo,
                ;
            }
        }
    }
}

proof fn pushed_just_enough(cards: Seq<CardView>, scale: int, i: int)
    requires
        0 <= i < cards.len(),
    ensures
        ({
            let out = pushed_apart(cards, scale);
            &&& out.len() == cards.len()
            &&& out[i].block == cards[i].block
            &&& i == 0 ==> out[i].x == cards[i].x
            &&& i > 0 && cards[i].x >= out[i - 1].x + 168 * scale ==> out[i].x == cards[i].x
            &&& i > 0 && cards[i].x < out[i - 1].x + 168 * scale ==> out[i].x == out[i - 1].x + 168
                * scale
        }),
    decreases cards.len(),
{
    let out = pushed_apart(cards, scale);
    let front = cards.drop_last();
    let early = pushed_apart(front, scale);
    assert((CARD_W + CARD_GAP) * scale == 168 * scale) by (nonlinear_arith)
        requires
            CARD_W + CARD_GAP == 168,
    ;
    if i < front.len() {
        pushed_just_enough(front, scale, i);
        assert(front[i] == cards[i]);
        assert(out[i] == early[i]);
        if i > 0 {
            assert(out[i - 1] == early[i - 1]);
        }
    } else {
        if front.len() > 0 {
            pushed_just_enough(front, scale, front.len() - 1);
            assert(early.last() == early[early.len() - 1]);
            assert(out[i - 1] == early[i - 1]);
        }
    }
}

/// A card stands where its time puts it, unless the one before it is in the way:
/// then it stands right behind that one, a card and a gap of 10 pixels further.
pub proof fn cards_stand_at_their_time(blocks: Seq<BlockView>, span: Option<(i64, i64)>, i: int)
    requires
        0 <= i < cards_of(blocks, span).len(),
    ensures
        ({
            let cards = cards_of(blocks, span);
            let proper = proper_place(cards[i].block.at, span);
            let step = (158 + 10) * unit_of(span);
            &&& i == 0 ==> cards[i].x == proper
            &&& i > 0 && proper >= cards[i - 1].x + step ==> cards[i].x == proper
            &&& i > 0 && proper < cards[i - 1].x + step ==> cards[i].x == cards[i - 1].x + step
        }),
{
    let starts = started(blocks, span);
    let sorted = arranged(starts, left_of());
    cards_never_overlap(blocks, span);
    started_keeps_length(blocks, span);
    arranged_is_permutation(starts, left_of());
    same_items(sorted, starts);
    assert(sorted.contains(sorted[i]));
    let k = choose|k: int| 0 <= k < starts.len() && starts[k] == sorted[i];
    assert(starts[k].x == start_of(blocks[k], span));
    starts_are_proper(blocks[k], span);
    pushed_just_enough(sorted, scale_of(span), i);
}

/// Each lane on the path has its cards, and the rows keep the order of the
/// lanes.
pub proof fn rows_keep_their_order(lanes: Seq<LaneView>, span: Option<(i64, i64)>)
    ensures
        placed_lanes(lanes, span) == lanes.filter(
            |l: LaneView| l.state != LaneState::OffPath,
        ).map_values(|l: LaneView| PlacedView { lane: l, cards: cards_of(l.blocks, span) }),
    decreases lanes.len(),
{
    reveal(Seq::filter);
    let kept = lanes.filter(|l: LaneView| l.state != LaneState::OffPath);
    let rows = kept.map_values(
        |l: LaneView| PlacedView { lane: l, cards: cards_of(l.blocks, span) },
    );
    if lanes.len() > 0 {
        rows_keep_their_order(lanes.drop_last(), span);
        assert(placed_lanes(lanes, span) =~= rows);
    } else {
        assert(placed_lanes(lanes, span) =~= rows);
    }
}

/// The layout of a trace is that of its lanes on its own span.
pub proof fn layouts_are_of_their_trace(trace: TraceView)
    ensures
        layout_of(trace).lanes == placed_lanes(trace.lanes, trace.span),
        layout_of(trace).scale == unit_of(trace.span),
        layout_of(trace).width == width_of(layout_of(trace).lanes, unit_of(trace.span)),
{
}

/// The track is no wider than it has to be: as wide as its base of 900 pixels,
/// or as some lane's last card and the 20 pixels behind it ask for.
pub proof fn tracks_are_as_wide_as_needed(lanes: Seq<PlacedView>, scale: int)
    ensures
        width_of(lanes, scale) == 900 * scale || exists|i: int|
            0 <= i < lanes.len() && (#[trigger] lanes[i]).cards.len() > 0 && width_of(lanes, scale)
                == lanes[i].cards.last().x + (158 + 20) * scale,
    decreases lanes.len(),
{
    assert(BASE_TRACK * scale == 900 * scale) by (nonlinear_arith)
        requires
            BASE_TRACK == 900,
    ;
    assert((CARD_W + PAD) * scale == (158 + 20) * scale) by (nonlinear_arith)
        requires
            CARD_W == 158,
            PAD == 20,
    ;
    if lanes.len() > 0 {
        let front = lanes.drop_last();
        tracks_are_as_wide_as_needed(front, scale);
        assert(lanes[lanes.len() - 1] == lanes.last());
        if width_of(front, scale) != 900 * scale {
            let i = choose|i: int|
                0 <= i < front.len() && (#[trigger] front[i]).cards.len() > 0 && width_of(
                    front,
                    scale,
                ) == front[i].cards.last().x + (158 + 20) * scale;
            assert(lanes[i] == front[i]);
        }
    }
}

/// The ticks divide the axis evenly: there are five, the first at its beginning,
/// which says the time, the last at its end; the others say how much later they
/// are. A single instant has one tick, and no time at all has none.
pub proof fn ticks_divide_the_axis(lo: i64, hi: i64, width: int, i: int)
    requires
        0 <= i < 5,
    ensures
        ticks_of(None, width).len() == 0,
        hi <= lo ==> ticks_of(Some((lo, hi)), width) == seq![
            TickView { x: 80, text: time_text(lo) },
        ],
        lo < hi ==> {
            let ticks = ticks_of(Some((lo, hi)), width);
            let room = width - (158 + 20 + 20) * (hi - lo);
            &&& ticks.len() == 5
            &&& ticks[i].x == 80 * (hi - lo) + i * room
            &&& ticks[0].text == time_text(lo)
            &&& i > 0 ==> ticks[i].text == gap_text(tick_gap((hi - lo) as nat, i as nat))
        },
{
    if lo < hi {
        let scale = hi - lo;
        assert((CARD_W + 2 * PAD) * scale == (158 + 20 + 20) * scale) by (nonlinear_arith)
            requires
                CARD_W + 2 * PAD == 198,
        ;
        assert(4 * PAD * scale == 80 * scale) by (nonlinear_arith)
            requires
                PAD == 20,
        ;
    }
}

/// Failed steps are counted one by one.
pub proof fn failures_are_counted(blocks: Seq<BlockView>, rules: Seq<RuleView>)
    ensures
        failures_among(blocks, rules) == blocks.filter(
            |b: BlockView| is_failure(b.doc, rules),
        ).len(),
    decreases blocks.len(),
{
    reveal(Seq::filter);
    if blocks.len() > 0 {
        failures_are_counted(blocks.drop_last(), rules);
    }
}

/// Exactly the lanes off the path are listed below the track, in their order.
pub proof fn lanes_off_the_path_are_listed(lanes: Seq<LaneView>)
    ensures
        off_path_names(lanes) == lanes.filter(
            |l: LaneView| l.state == LaneState::OffPath,
        ).map_values(|l: LaneView| l.name),
    decreases lanes.len(),
{
    reveal(Seq::filter);
    let listed = lanes.filter(|l: LaneView| l.state == LaneState::OffPath).map_values(
        |l: LaneView| l.name,
    );
    if lanes.len() > 0 {
        lanes_off_the_path_are_listed(lanes.drop_last());
        assert(off_path_names(lanes) =~= listed);
    } else {
        assert(off_path_names(lanes) =~= listed);
    }
}

/// A lane says how much later than the first event it saw the value: where it
/// was later, by the first time in it, and nowhere else.
pub proof fn gaps_are_from_the_first_event(start: i64, lane: LaneView, t: i64)
    requires
        earliest(lane.blocks) == Some(t),
    ensures
        t > start ==> gap_of(Some(start), lane) == Some(gap_text(t - start)),
        t <= start ==> gap_of(Some(start), lane) is None,
        gap_of(None, lane) is None,
{
}

} // verus!
