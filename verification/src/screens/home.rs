//! One account: what is traced on, which value, and what counts as a failure.

use crate::services::blocks::{Block, TraceSpec, TraceSpecView};
use crate::services::cache::CachedScan;
use crate::services::cosmos::{
    AccountSchemas, ContainerError, ContainerErrorView, ContainerSchema, DataError, DataErrorView,
    SchemaView,
};
use crate::services::discover::{
    first_binding, Insights, KeyCandidate, KeyView, RoleCandidate, RoleView,
};
use crate::services::document::{rule_label, ErrorRule, RuleView};
use crate::services::history::{Entry, EntryView};
use crate::services::trace::{found_in, Trace};
use crate::text::{
    byte_len, byte_length, chars_of, concat, contains, count, decimal, is_listed, lowered, occurs,
    same, text_of, to_lower, trim, trimmed, Text,
};
use crate::text_set::TextSet;
use vstd::prelude::*;

verus! {

// ── Selections ───────────────────────────────────────────────────────────

/// What a selection becomes when the options are `options`, best first: the
/// best one where nothing was selected, nothing where the selected one is gone.
pub open spec fn reconciled(current: Text, options: Seq<Text>) -> Text {
    if current.len() == 0 {
        if options.len() > 0 {
            options[0]
        } else {
            current
        }
    } else if options.contains(current) {
        current
    } else {
        Seq::empty()
    }
}

/// Keeps a role selection valid across rescans: default to the top-ranked
/// option, drop it if it no longer exists.
pub fn reconcile(current: &str, options: &Vec<String>) -> (out: String)
    ensures
        out@ == reconciled(current@, options.deep_view()),
{
    let ghost all = options.deep_view();
    if current.is_empty() {
        if options.len() > 0 {
            assert(all[0] == options@[0]@);
            return options[0].clone();
        }
        return current.to_owned();
    }
    if is_listed(options, current) {
        current.to_owned()
    } else {
        let none = String::new();
        assert(none@ =~= Seq::<char>::empty());
        none
    }
}

/// What the lane field becomes when the options are `options`. Lanes default to
/// containers, so this one only ever needs clearing.
pub fn reconcile_lane(current: &str, options: &Vec<String>) -> (out: String)
    ensures
        out@ == (if options.deep_view().contains(current@) {
            current@
        } else {
            Seq::empty()
        }),
{
    if is_listed(options, current) {
        current.to_owned()
    } else {
        let none = String::new();
        assert(none@ =~= Seq::<char>::empty());
        none
    }
}

/// After a rescan no selection names something that does not exist, one that
/// still exists is kept, and one that is settled stays as it is.
pub proof fn selection_stays_valid(current: Text, options: Seq<Text>)
    ensures
        reconciled(current, options).len() == 0 || options.contains(reconciled(current, options)),
        options.contains(current) && current.len() > 0 ==> reconciled(current, options) == current,
        reconciled(current, options).len() > 0 ==> reconciled(
            reconciled(current, options),
            options,
        ) == reconciled(current, options),
{
    if options.len() > 0 {
        assert(options.contains(options[0]));
    }
}

/// The ids of `roles`.
pub open spec fn role_ids(roles: Seq<RoleView>) -> Seq<Text> {
    Seq::new(roles.len(), |i: int| roles[i].id)
}

/// The ids of `keys`.
pub open spec fn key_ids(keys: Seq<KeyView>) -> Seq<Text> {
    Seq::new(keys.len(), |i: int| keys[i].id)
}

/// The ids of candidates for a role.
pub fn ids_of_roles(roles: &Vec<RoleCandidate>) -> (out: Vec<String>)
    ensures
        out.deep_view() == role_ids(roles.deep_view()),
{
    let mut out: Vec<String> = Vec::new();
    let mut i: usize = 0;
    while i < roles.len()
        invariant
            i <= roles@.len(),
            out@.len() == i,
            forall|j: int| 0 <= j < i ==> (#[trigger] out@[j])@ == roles@[j]@.id,
        decreases roles.len() - i,
    {
        out.push(roles[i].id.clone());
        i = i + 1;
    }
    assert(out.deep_view() =~= role_ids(roles.deep_view()));
    out
}

/// The ids of candidates for the key.
pub fn ids_of_keys(keys: &Vec<KeyCandidate>) -> (out: Vec<String>)
    ensures
        out.deep_view() == key_ids(keys.deep_view()),
{
    let mut out: Vec<String> = Vec::new();
    let mut i: usize = 0;
    while i < keys.len()
        invariant
            i <= keys@.len(),
            out@.len() == i,
            forall|j: int| 0 <= j < i ==> (#[trigger] out@[j])@ == keys@[j]@.id,
        decreases keys.len() - i,
    {
        out.push(keys[i].id.clone());
        i = i + 1;
    }
    assert(out.deep_view() =~= key_ids(keys.deep_view()));
    out
}

/// The first of `keys` with the given id.
pub open spec fn key_with(keys: Seq<KeyView>, id: Text) -> Option<KeyView>
    decreases keys.len(),
{
    if keys.len() == 0 {
        None
    } else if keys[0].id == id {
        Some(keys[0])
    } else {
        key_with(keys.drop_first(), id)
    }
}

/// The key that is chosen.
pub fn chosen_key(keys: &Vec<KeyCandidate>, id: &str) -> (out: Option<KeyCandidate>)
    ensures
        out.deep_view() == key_with(keys.deep_view(), id@),
{
    let ghost all = keys.deep_view();
    let mut i: usize = 0;
    assert(all.skip(0) =~= all);
    while i < keys.len()
        invariant
            all == keys.deep_view(),
            i <= keys@.len(),
            key_with(all, id@) == key_with(all.skip(i as int), id@),
        decreases keys.len() - i,
    {
        assert(all.skip(i as int)[0] == keys@[i as int]@);
        assert(all.skip(i as int).drop_first() =~= all.skip(i + 1));
        if same(keys[i].id.as_str(), id) {
            return Some(keys[i].clone());
        }
        i = i + 1;
    }
    None
}

/// What the list of keys says of one: how many containers it reaches, and
/// whether values prove the link.
pub open spec fn key_option_of(key: KeyView, total: nat) -> Text {
    key.label + "  —  "@ + decimal(key.bindings.len()) + "/"@ + decimal(total) + " containers"@ + (
    if key.shared_values > 0 {
        ", values match"@
    } else {
        Seq::empty()
    })
}

/// What the list of keys says of one.
pub fn key_option(key: &KeyCandidate, total: usize) -> (out: String)
    ensures
        out@ == key_option_of(key@, total as nat),
{
    let reach = count(key.bindings.len());
    let all = count(total);
    let mut out = key.label.clone();
    out.append("  —  ");
    out.append(reach.as_str());
    out.append("/");
    out.append(all.as_str());
    out.append(" containers");
    assert(out@ + Seq::<char>::empty() =~= out@);
    if key.shared_values > 0 {
        out.append(", values match");
    }
    out
}

/// What a list of roles says of one.
pub fn role_option(role: &RoleCandidate) -> (out: String)
    ensures
        out@ == role@.label + "  —  "@ + role@.note,
{
    let mut out = role.label.clone();
    out.append("  —  ");
    out.append(role.note.as_str());
    out
}

// ── Scanning ─────────────────────────────────────────────────────────────

/// How far the first scan of an account has come.
#[derive(Debug, PartialEq)]
pub enum LoadState {
    Idle,
    Loading,
    Done,
    /// Nothing could be sampled at all. Individual containers that failed are
    /// among the scan's errors instead: the scan still succeeded around them.
    Failed(DataError),
}

/// How far the first scan of an account has come, as contracts speak of it.
pub enum LoadView {
    Idle,
    Loading,
    Done,
    Failed(DataErrorView),
}

impl View for LoadState {
    type V = LoadView;

    open spec fn view(&self) -> LoadView {
        match self {
            LoadState::Idle => LoadView::Idle,
            LoadState::Loading => LoadView::Loading,
            LoadState::Done => LoadView::Done,
            LoadState::Failed(e) => LoadView::Failed(e@),
        }
    }
}

/// What is known of an account's containers, and what is being done about it.
#[derive(Debug, PartialEq)]
pub struct ScanState {
    pub load: LoadState,
    pub schemas: Vec<ContainerSchema>,
    /// Containers the scan could not read: gaps in an otherwise usable account,
    /// not a failed scan.
    pub errors: Vec<ContainerError>,
    /// A scan is running.
    pub refreshing: bool,
    /// Why the last refresh behind data on screen failed.
    pub refresh_error: Option<String>,
    /// When the data on screen was sampled, in Unix seconds.
    pub scanned_at: Option<i64>,
}

/// What is known of an account's containers, as contracts speak of it.
pub struct ScanStateView {
    pub load: LoadView,
    pub schemas: Seq<SchemaView>,
    pub errors: Seq<ContainerErrorView>,
    pub refreshing: bool,
    pub refresh_error: Option<Text>,
    pub scanned_at: Option<i64>,
}

impl View for ScanState {
    type V = ScanStateView;

    open spec fn view(&self) -> ScanStateView {
        ScanStateView {
            load: self.load@,
            schemas: self.schemas.deep_view(),
            errors: self.errors.deep_view(),
            refreshing: self.refreshing,
            refresh_error: self.refresh_error.deep_view(),
            scanned_at: self.scanned_at,
        }
    }
}

impl ScanState {
    /// Nothing is known and nothing is being done.
    pub fn new() -> (out: Self)
        ensures
            out@ == (ScanStateView {
                load: LoadView::Idle,
                schemas: Seq::empty(),
                errors: Seq::empty(),
                refreshing: false,
                refresh_error: None,
                scanned_at: None,
            }),
    {
        let schemas: Vec<ContainerSchema> = Vec::new();
        let errors: Vec<ContainerError> = Vec::new();
        assert(schemas.deep_view() =~= Seq::<SchemaView>::empty());
        assert(errors.deep_view() =~= Seq::<ContainerErrorView>::empty());
        ScanState {
            load: LoadState::Idle,
            schemas,
            errors,
            refreshing: false,
            refresh_error: None,
            scanned_at: None,
        }
    }

    /// Opens on the last scan if there is one, so the window is usable
    /// immediately; says whether there was, for then the scan that follows runs
    /// behind it.
    pub fn open_on(&mut self, cached: Option<CachedScan>) -> (warm: bool)
        ensures
            warm == cached is Some,
            final(self)@ == (match cached {
                Some(scan) => ScanStateView {
                    load: LoadView::Done,
                    schemas: scan.schemas.deep_view(),
                    scanned_at: Some(scan.scanned_at),
                    ..old(self)@
                },
                None => old(self)@,
            }),
    {
        match cached {
            Some(scan) => {
                self.scanned_at = Some(scan.scanned_at);
                self.schemas = scan.schemas;
                self.load = LoadState::Done;
                true
            },
            None => false,
        }
    }

    /// A scan begins. In the background there is data on screen already: it is
    /// refreshed without blanking it.
    pub fn begin(&mut self, background: bool)
        ensures
            final(self)@ == (if background {
                ScanStateView { refreshing: true, refresh_error: None, ..old(self)@ }
            } else {
                ScanStateView {
                    load: LoadView::Loading,
                    schemas: Seq::empty(),
                    refreshing: true,
                    refresh_error: None,
                    ..old(self)@
                }
            }),
    {
        if !background {
            let none: Vec<ContainerSchema> = Vec::new();
            assert(none.deep_view() =~= Seq::<SchemaView>::empty());
            self.load = LoadState::Loading;
            self.schemas = none;
        }
        self.refreshing = true;
        self.refresh_error = None;
    }

    /// A scan succeeded.
    pub fn succeed(&mut self, found: AccountSchemas, now: i64)
        ensures
            final(self)@ == (ScanStateView {
                load: LoadView::Done,
                schemas: found@.schemas,
                errors: found@.errors,
                refreshing: false,
                refresh_error: old(self)@.refresh_error,
                scanned_at: Some(now),
            }),
    {
        self.scanned_at = Some(now);
        self.errors = found.errors;
        self.schemas = found.schemas;
        self.load = LoadState::Done;
        self.refreshing = false;
    }

    /// A scan failed. In the background the data on screen is still useful: it
    /// is said that the refresh failed, and nothing is discarded.
    pub fn fail(&mut self, e: DataError, background: bool)
        ensures
            final(self)@ == (if background {
                ScanStateView { refreshing: false, refresh_error: Some(e@.message), ..old(self)@ }
            } else {
                ScanStateView { refreshing: false, load: LoadView::Failed(e@), ..old(self)@ }
            }),
    {
        if background {
            self.refresh_error = Some(e.message);
        } else {
            self.load = LoadState::Failed(e);
        }
        self.refreshing = false;
    }

    /// Granting the role to read data failed.
    pub fn grant_failed(&mut self, e: &str)
        ensures
            final(self)@ == (ScanStateView {
                refresh_error: Some("Grant failed: "@ + e@),
                ..old(self)@
            }),
    {
        self.refresh_error = Some(concat("Grant failed: ", e));
    }

    /// Whether to offer granting the role: either the whole scan was refused,
    /// or individual containers were. The status code decides it.
    pub fn forbidden(&self) -> (r: bool)
        ensures
            r == self@.forbidden(),
    {
        if let LoadState::Failed(e) = &self.load {
            if e.forbidden() {
                return true;
            }
        }
        let ghost all = self.errors.deep_view();
        let mut i: usize = 0;
        while i < self.errors.len()
            invariant
                !(self.load is Failed && self.load->Failed_0.status == Some(403u16)),
                all == self.errors.deep_view(),
                i <= self.errors@.len(),
                forall|j: int| 0 <= j < i ==> !(#[trigger] all[j]).forbidden,
            decreases self.errors.len() - i,
        {
            assert(all[i as int] == self.errors@[i as int]@);
            if self.errors[i].forbidden {
                assert(self@.errors[i as int].forbidden);
                return true;
            }
            i = i + 1;
        }
        false
    }
}

impl ScanStateView {
    /// Whether access to data is missing somewhere.
    pub open spec fn forbidden(self) -> bool {
        ||| match self.load {
            LoadView::Failed(e) => e.status == Some(403u16),
            _ => false,
        }
        ||| exists|i: int| 0 <= i < self.errors.len() && (#[trigger] self.errors[i]).forbidden
    }
}

// ── Following a value ────────────────────────────────────────────────────

/// The value to follow, from what was typed: nothing, if that is blank.
pub fn submitted(typed: &str) -> (out: Option<String>)
    ensures
        out.deep_view() == (if trimmed(typed@).len() > 0 {
            Some(trimmed(typed@))
        } else {
            None
        }),
{
    let value = trim(typed);
    if value.as_str().is_empty() {
        None
    } else {
        Some(value)
    }
}

/// The fragment to search values for while one is being typed: nothing, as long
/// as it has fewer than `least` bytes. Each search asks every container, so one
/// per keystroke would be expensive.
pub fn fragment_of(typed: &str, least: usize) -> (out: Option<String>)
    ensures
        out.deep_view() == (if byte_length(trimmed(typed@)) >= least {
            Some(trimmed(typed@))
        } else {
            None
        }),
{
    let text = trim(typed);
    if byte_len(text.as_str()) >= least {
        Some(text)
    } else {
        None
    }
}

/// Whether what was asked for is still what is typed. A search that has been
/// superseded is dropped, before it is sent and when it comes back: a slow one
/// must not overwrite the results of a newer, faster one.
pub fn still_wanted(asked: &str, typed: &str) -> (r: bool)
    ensures
        r == (asked@ == typed@),
{
    same(asked, typed)
}

/// Whether the list of suggestions is shown: only while the box holds a
/// fragment. Once it holds one of the suggestions, the list would offer the
/// thing that was picked.
pub fn show_suggestions(suggestions: &Vec<String>, typed: &str, suggesting: bool) -> (r: bool)
    ensures
        r == (!suggestions.deep_view().contains(trimmed(typed@)) && (suggesting
            || suggestions@.len() > 0)),
{
    let text = trim(typed);
    !is_listed(suggestions, text.as_str()) && (suggesting || suggestions.len() > 0)
}

/// How many fields may be shown as facts on a card.
pub const FACT_FIELDS: usize = 6;

/// What to trace: the value, on the chosen key, read by the chosen fields. The
/// best labels make the facts. Nothing, if no key is chosen.
pub open spec fn spec_of(
    keys: Seq<KeyView>,
    labels: Seq<RoleView>,
    key_id: Text,
    time_id: Text,
    label_id: Text,
    value: Text,
) -> Option<TraceSpecView> {
    match key_with(keys, key_id) {
        Some(key) => Some(
            TraceSpecView {
                key,
                value,
                time_field: time_id,
                label_field: label_id,
                fact_fields: if labels.len() <= FACT_FIELDS {
                    role_ids(labels)
                } else {
                    role_ids(labels).take(FACT_FIELDS as int)
                },
            },
        ),
        None => None,
    }
}

/// What to trace, and what to remember of it: the value and what it was traced
/// on.
pub fn follow(
    insights: &Insights,
    key_id: &str,
    time_id: &str,
    label_id: &str,
    value: &str,
) -> (out: Option<(TraceSpec, Entry)>)
    ensures
        match (
            out,
            spec_of(
                insights.keys.deep_view(),
                insights.labels.deep_view(),
                key_id@,
                time_id@,
                label_id@,
                value@,
            ),
        ) {
            (Some((spec, entry)), Some(want)) => spec@ == want && entry@ == (EntryView {
                value: value@,
                key: want.key.label,
            }),
            (None, None) => true,
            _ => false,
        },
{
    let key = match chosen_key(&insights.keys, key_id) {
        Some(key) => key,
        None => return None,
    };
    let ghost labels = insights.labels.deep_view();
    let ids = ids_of_roles(&insights.labels);
    let mut facts: Vec<String> = Vec::new();
    let mut i: usize = 0;
    assert(facts.deep_view() =~= role_ids(labels).take(0));
    while i < ids.len() && i < FACT_FIELDS
        invariant
            ids.deep_view() == role_ids(labels),
            i <= ids@.len(),
            i <= FACT_FIELDS,
            facts.deep_view() == role_ids(labels).take(i as int),
        decreases ids.len() - i,
    {
        let ghost before = facts.deep_view();
        facts.push(ids[i].clone());
        assert(facts.deep_view() =~= before.push(ids@[i as int]@));
        assert(ids.deep_view()[i as int] == ids@[i as int]@);
        assert(facts.deep_view() =~= role_ids(labels).take(i + 1));
        i = i + 1;
    }
    assert(role_ids(labels).len() == labels.len());
    if i == ids.len() {
        assert(role_ids(labels).take(i as int) =~= role_ids(labels));
    }
    let entry = Entry { value: value.to_owned(), key: key.label.clone() };
    Some(
        (
            TraceSpec {
                key,
                value: value.to_owned(),
                time_field: time_id.to_owned(),
                label_field: label_id.to_owned(),
                fact_fields: facts,
            },
            entry,
        ),
    )
}

/// What to do about the value that was traced last, when the screen opens.
#[derive(Debug, PartialEq, Eq)]
pub enum Replay {
    /// Not yet: the scan has not settled on a key, or it was done before.
    Wait,
    /// There is none.
    Nothing,
    /// Follow this one.
    Follow(String),
}

/// Whether to replay the value traced last, so as to land on something rather
/// than an empty box. It happens once: doing it on every rescan would fight the
/// user.
pub fn replay(scanned: bool, key_id: &str, done: bool, recent: &Vec<Entry>) -> (out: Replay)
    ensures
        match out {
            Replay::Wait => !scanned || key_id@.len() == 0 || done,
            Replay::Nothing => scanned && key_id@.len() > 0 && !done && recent@.len() == 0,
            Replay::Follow(value) => scanned && key_id@.len() > 0 && !done && recent@.len() > 0
                && value@ == recent@[0]@.value,
        },
{
    if !scanned || key_id.is_empty() || done {
        Replay::Wait
    } else if recent.len() == 0 {
        Replay::Nothing
    } else {
        Replay::Follow(recent[0].value.clone())
    }
}

/// The card that is selected once the card `id` has been clicked: clicking the
/// open card closes it.
pub fn toggle_card(selected: Option<&str>, id: &str) -> (out: Option<String>)
    ensures
        out.deep_view() == (match selected {
            Some(open) if open@ == id@ => None,
            _ => Some(id@),
        }),
{
    match selected {
        Some(open) => if same(open, id) {
            None
        } else {
            Some(id.to_owned())
        },
        None => Some(id.to_owned()),
    }
}

/// The document behind the selected card. It belongs to the trace, so it folds
/// away with the cards it came from.
pub fn open_document<'a>(trace: &'a Trace, selected: &str, on_setup: bool) -> (out: Option<&'a Block>)
    ensures
        match (out, found_in(trace@.lanes, selected@)) {
            (Some(block), Some((_, found))) => !on_setup && block@ == found,
            (None, None) => true,
            (None, Some(_)) => on_setup,
            (Some(_), None) => false,
        },
{
    if on_setup {
        return None;
    }
    match trace.find_block(selected) {
        Some((_, block)) => Some(block),
        None => None,
    }
}

/// `value` as a chip shows it: both ends, if it is long.
pub open spec fn chip_text(value: Text) -> Text {
    if value.len() <= 20 {
        value
    } else {
        value.take(10) + "…"@ + value.skip(value.len() - 6)
    }
}

/// Correlation ids are too long for a chip. Keeps both ends: the tail is
/// usually what distinguishes two ids at a glance.
pub fn shorten(value: &str) -> (out: String)
    ensures
        out@ == chip_text(value@),
{
    let x = chars_of(value);
    if x.len() <= 20 {
        return value.to_owned();
    }
    let head = text_of(&x, 0, 10);
    let tail = text_of(&x, x.len() - 6, x.len());
    assert(head@ =~= value@.take(10));
    assert(tail@ =~= value@.skip(value@.len() - 6));
    let front = concat(head.as_str(), "…");
    concat(front.as_str(), tail.as_str())
}

/// A chip is never longer than twenty characters, and begins and ends as the
/// value does.
pub proof fn chips_are_short(value: Text)
    ensures
        chip_text(value).len() <= 20,
        value.len() > 20 ==> chip_text(value).len() == 17 && chip_text(value).take(10)
            == value.take(10) && chip_text(value).skip(11) == value.skip(value.len() - 6),
{
    reveal_strlit("…");
    if value.len() > 20 {
        assert(chip_text(value).take(10) =~= value.take(10));
        assert(chip_text(value).skip(11) =~= value.skip(value.len() - 6));
    }
}

// ── Error rules ──────────────────────────────────────────────────────────

/// Whether the list of fields shows `field` when it is filtered by `needle` and
/// `chosen` is chosen. The chosen one always stays: if filtering could drop it,
/// the selection would change out from under the user.
pub open spec fn is_shown(field: RoleView, needle: Text, chosen: Text) -> bool {
    needle.len() == 0 || occurs(field.id, needle) || field.id == chosen
}

/// Those of `fields` that the list shows.
pub open spec fn shown_fields(fields: Seq<RoleView>, needle: Text, chosen: Text) -> Seq<RoleView>
    decreases fields.len(),
{
    if fields.len() == 0 {
        Seq::empty()
    } else if is_shown(fields.last(), needle, chosen) {
        shown_fields(fields.drop_last(), needle, chosen).push(fields.last())
    } else {
        shown_fields(fields.drop_last(), needle, chosen)
    }
}

/// What the list of fields is searched for: ids are lowercased, so what was
/// typed is too.
pub fn needle_of(typed: &str) -> (out: String)
    ensures
        out@ == lowered(trimmed(typed@)),
{
    let bare = trim(typed);
    to_lower(bare.as_str())
}

/// Those of `fields` that the list shows.
pub fn matching_fields(fields: &Vec<RoleCandidate>, needle: &str, chosen: &str) -> (out: Vec<
    RoleCandidate,
>)
    ensures
        out.deep_view() == shown_fields(fields.deep_view(), needle@, chosen@),
{
    let ghost all = fields.deep_view();
    let mut out: Vec<RoleCandidate> = Vec::new();
    let mut i: usize = 0;
    assert(out.deep_view() =~= Seq::<RoleView>::empty());
    while i < fields.len()
        invariant
            all == fields.deep_view(),
            i <= fields@.len(),
            out.deep_view() == shown_fields(all.take(i as int), needle@, chosen@),
        decreases fields.len() - i,
    {
        let field = &fields[i];
        assert(all.take(i + 1).drop_last() =~= all.take(i as int));
        assert(all.take(i + 1).last() == field@);
        if needle.is_empty() || contains(field.id.as_str(), needle) || same(
            field.id.as_str(),
            chosen,
        ) {
            let ghost before = out.deep_view();
            out.push(field.clone());
            assert(out.deep_view() =~= before.push(field@));
        }
        i = i + 1;
    }
    assert(all.take(i as int) =~= all);
    out
}

/// How the first of `fields` with the given id is spelled.
pub open spec fn label_with(fields: Seq<RoleView>, id: Text) -> Text
    decreases fields.len(),
{
    if fields.len() == 0 {
        Seq::empty()
    } else if fields[0].id == id {
        fields[0].label
    } else {
        label_with(fields.drop_first(), id)
    }
}

/// How the chosen field is spelled.
pub fn label_of(fields: &Vec<RoleCandidate>, chosen: &str) -> (out: String)
    ensures
        out@ == label_with(fields.deep_view(), chosen@),
{
    let ghost all = fields.deep_view();
    let mut i: usize = 0;
    assert(all.skip(0) =~= all);
    while i < fields.len()
        invariant
            all == fields.deep_view(),
            i <= fields@.len(),
            label_with(all, chosen@) == label_with(all.skip(i as int), chosen@),
        decreases fields.len() - i,
    {
        assert(all.skip(i as int)[0] == fields@[i as int]@);
        assert(all.skip(i as int).drop_first() =~= all.skip(i + 1));
        if same(fields[i].id.as_str(), chosen) {
            return fields[i].label.clone();
        }
        i = i + 1;
    }
    let none = String::new();
    assert(none@ =~= Seq::<char>::empty());
    none
}

fn same_rule(a: &ErrorRule, b: &ErrorRule) -> (r: bool)
    ensures
        r == (a@ == b@),
{
    same(a.field.as_str(), b.field.as_str()) && same(a.display.as_str(), b.display.as_str())
        && same(a.value.as_str(), b.value.as_str())
}

/// What adding a rule came to.
#[derive(Debug, PartialEq)]
pub enum Commit {
    /// There was nothing to add.
    Ignored,
    /// It is a rule already, which is what this note says.
    Duplicate(String),
    /// These are the rules now.
    Added(Vec<ErrorRule>),
}

/// The rule that a field and a typed value make: nothing, if either is blank.
pub open spec fn pending_rule(field: Text, value: Text, display: Text) -> Option<RuleView> {
    if field.len() == 0 || trimmed(value).len() == 0 {
        None
    } else {
        Some(RuleView { field, display, value: trimmed(value) })
    }
}

/// Appends the pending field and value as a rule. A duplicate is not dropped in
/// silence, for that looks exactly like the rule being added.
pub fn commit(current: &Vec<ErrorRule>, field: &str, value: &str, display: &str) -> (out: Commit)
    ensures
        match pending_rule(field@, value@, display@) {
            None => out is Ignored,
            Some(rule) => if current.deep_view().contains(rule) {
                out is Duplicate && out->Duplicate_0@ == rule_label(rule) + " is already a rule."@
            } else {
                out is Added && out->Added_0.deep_view() == current.deep_view().push(rule)
            },
        },
{
    let text = trim(value);
    if field.is_empty() || text.as_str().is_empty() {
        return Commit::Ignored;
    }
    let rule = ErrorRule { field: field.to_owned(), display: display.to_owned(), value: text };
    let ghost view = rule@;
    let ghost all = current.deep_view();
    let mut next: Vec<ErrorRule> = Vec::new();
    let mut i: usize = 0;
    assert(next.deep_view() =~= all.take(0));
    while i < current.len()
        invariant
            pending_rule(field@, value@, display@) == Some(view),
            rule@ == view,
            all == current.deep_view(),
            i <= current@.len(),
            forall|j: int| 0 <= j < i ==> #[trigger] all[j] != view,
            next.deep_view() == all.take(i as int),
        decreases current.len() - i,
    {
        assert(all[i as int] == current@[i as int]@);
        if same_rule(&current[i], &rule) {
            assert(all.contains(view));
            let label = rule.label();
            return Commit::Duplicate(concat(label.as_str(), " is already a rule."));
        }
        let ghost before = next.deep_view();
        next.push(current[i].clone());
        assert(next.deep_view() =~= before.push(all[i as int]));
        assert(next.deep_view() =~= all.take(i + 1));
        i = i + 1;
    }
    assert(all.take(i as int) =~= all);
    assert(!all.contains(view));
    next.push(rule);
    assert(next.deep_view() =~= all.push(view));
    Commit::Added(next)
}

/// `rules` without `rule`.
pub open spec fn without_rule(rules: Seq<RuleView>, rule: RuleView) -> Seq<RuleView>
    decreases rules.len(),
{
    if rules.len() == 0 {
        Seq::empty()
    } else if rules.last() == rule {
        without_rule(rules.drop_last(), rule)
    } else {
        without_rule(rules.drop_last(), rule).push(rules.last())
    }
}

/// The rules that are left once `rule` is removed.
pub fn remove_rule(rules: &Vec<ErrorRule>, rule: &ErrorRule) -> (out: Vec<ErrorRule>)
    ensures
        out.deep_view() == without_rule(rules.deep_view(), rule@),
{
    let ghost all = rules.deep_view();
    let mut out: Vec<ErrorRule> = Vec::new();
    let mut i: usize = 0;
    assert(out.deep_view() =~= Seq::<RuleView>::empty());
    while i < rules.len()
        invariant
            all == rules.deep_view(),
            i <= rules@.len(),
            out.deep_view() == without_rule(all.take(i as int), rule@),
        decreases rules.len() - i,
    {
        assert(all.take(i + 1).drop_last() =~= all.take(i as int));
        assert(all.take(i + 1).last() == rules@[i as int]@);
        if !same_rule(&rules[i], rule) {
            let ghost before = out.deep_view();
            out.push(rules[i].clone());
            assert(out.deep_view() =~= before.push(rules@[i as int]@));
        }
        i = i + 1;
    }
    assert(all.take(i as int) =~= all);
    out
}

/// Removing a rule that was just added gives back the rules there were.
pub proof fn removing_undoes_adding(rules: Seq<RuleView>, rule: RuleView)
    requires
        !rules.contains(rule),
    ensures
        without_rule(rules.push(rule), rule) == rules,
    decreases rules.len(),
{
    assert(rules.push(rule).drop_last() =~= rules);
    removing_nothing(rules, rule);
}

proof fn removing_nothing(rules: Seq<RuleView>, rule: RuleView)
    requires
        !rules.contains(rule),
    ensures
        without_rule(rules, rule) == rules,
    decreases rules.len(),
{
    if rules.len() > 0 {
        let front = rules.drop_last();
        assert(!front.contains(rule)) by {
            if front.contains(rule) {
                let k = choose|k: int| 0 <= k < front.len() && front[k] == rule;
                assert(rules[k] == rule);
            }
        }
        removing_nothing(front, rule);
        assert(rules[rules.len() - 1] != rule);
        assert(front.push(rules.last()) =~= rules);
    } else {
        assert(rules =~= Seq::<RuleView>::empty());
    }
}

// ── Containers ───────────────────────────────────────────────────────────

/// Opens the container `path` in the list, or closes it if it is open.
pub fn toggle_container(open: &mut TextSet, path: &str)
    ensures
        final(open)@ == (if old(open)@.contains(path@) {
            old(open)@.remove(path@)
        } else {
            old(open)@.insert(path@)
        }),
{
    if !open.remove(path) {
        assert(old(open)@.remove(path@) =~= old(open)@);
        open.insert(path);
    }
}

/// Whether all of `paths`, of which there are some, are open.
pub fn all_open(open: &TextSet, paths: &Vec<String>) -> (r: bool)
    ensures
        r == (paths@.len() > 0 && forall|i: int|
            0 <= i < paths@.len() ==> open@.contains((#[trigger] paths@[i])@)),
{
    if paths.len() == 0 {
        return false;
    }
    let mut i: usize = 0;
    while i < paths.len()
        invariant
            paths@.len() > 0,
            i <= paths@.len(),
            forall|j: int| 0 <= j < i ==> open@.contains((#[trigger] paths@[j])@),
        decreases paths.len() - i,
    {
        if !open.contains(paths[i].as_str()) {
            return false;
        }
        i = i + 1;
    }
    true
}

/// Closes all containers if all are open, and opens them all otherwise.
pub fn toggle_all(open: &TextSet, paths: &Vec<String>) -> (out: TextSet)
    ensures
        out@ == (if paths@.len() > 0 && forall|i: int|
            0 <= i < paths@.len() ==> open@.contains((#[trigger] paths@[i])@) {
            Set::empty()
        } else {
            paths.deep_view().to_set()
        }),
{
    if all_open(open, paths) {
        TextSet::new()
    } else {
        TextSet::of(paths)
    }
}

/// The field that carries the chosen key in the container `path`, if any.
pub fn bound_field(key: Option<&KeyCandidate>, path: &str) -> (out: Option<String>)
    ensures
        out.deep_view() == (match key {
            Some(key) => match first_binding(key@.bindings, path@) {
                Some(binding) => Some(binding.field),
                None => None,
            },
            None => None,
        }),
{
    match key {
        Some(key) => match key.binding_for(path) {
            Some(binding) => Some(binding.field.clone()),
            None => None,
        },
        None => None,
    }
}

// ── What the screen promises ─────────────────────────────────────────────

/// Where nothing is selected, the best option is proposed; a selection that is
/// no longer among the options is cleared, not replaced.
pub proof fn selections_default_to_the_best(current: Text, options: Seq<Text>)
    ensures
        current.len() == 0 && options.len() > 0 ==> reconciled(current, options) == options[0],
        current.len() == 0 && options.len() == 0 ==> reconciled(current, options).len() == 0,
        current.len() > 0 && !options.contains(current) ==> reconciled(current, options).len()
            == 0,
{
}

/// The ids of candidates are theirs, one by one.
pub proof fn ids_are_those_of_the_candidates(keys: Seq<KeyView>, roles: Seq<RoleView>, i: int)
    ensures
        key_ids(keys).len() == keys.len(),
        role_ids(roles).len() == roles.len(),
        0 <= i < keys.len() ==> key_ids(keys)[i] == keys[i].id,
        0 <= i < roles.len() ==> role_ids(roles)[i] == roles[i].id,
{
}

/// The chosen key is the first that has the chosen id; there is none where no
/// key has it.
pub proof fn chosen_key_has_the_id(keys: Seq<KeyView>, id: Text, k: int)
    ensures
        0 <= k < keys.len() && keys[k].id == id && (forall|m: int|
            0 <= m < k ==> (#[trigger] keys[m]).id != id) ==> key_with(keys, id) == Some(keys[k]),
        (forall|m: int| 0 <= m < keys.len() ==> (#[trigger] keys[m]).id != id) ==> key_with(
            keys,
            id,
        ) is None,
    decreases keys.len(),
{
    if keys.len() > 0 {
        let rest = keys.drop_first();
        chosen_key_has_the_id(rest, id, k - 1);
        assert forall|m: int| 0 <= m < rest.len() implies #[trigger] rest[m] == keys[m + 1] by {}
        if 0 < k < keys.len() && (forall|m: int| 0 <= m < k ==> (#[trigger] keys[m]).id != id) {
            assert(keys[0].id != id);
            assert(rest[k - 1] == keys[k]);
            assert forall|m: int| 0 <= m < k - 1 implies (#[trigger] rest[m]).id != id by {
                assert(keys[m + 1].id != id);
            }
        }
        if forall|m: int| 0 <= m < keys.len() ==> (#[trigger] keys[m]).id != id {
            assert(keys[0].id != id);
            assert forall|m: int| 0 <= m < rest.len() implies (#[trigger] rest[m]).id != id by {
                assert(keys[m + 1].id != id);
            }
        }
    }
}

/// What is traced is the value, whole, on the key with the chosen id, read by
/// the chosen fields; the best six labels, or as many as there are, make the
/// facts. Without such a key nothing is traced.
pub proof fn traces_are_of_what_was_chosen(
    keys: Seq<KeyView>,
    labels: Seq<RoleView>,
    key_id: Text,
    time_id: Text,
    label_id: Text,
    value: Text,
)
    ensures
        ({
            let out = spec_of(keys, labels, key_id, time_id, label_id, value);
            &&& out is None <==> forall|m: int|
                0 <= m < keys.len() ==> (#[trigger] keys[m]).id != key_id
            &&& out is Some ==> {
                let spec = out->0;
                &&& keys.contains(spec.key)
                &&& spec.key.id == key_id
                &&& spec.value == value
                &&& spec.time_field == time_id
                &&& spec.label_field == label_id
                &&& spec.fact_fields.len() == (if labels.len() < 6 {
                    labels.len()
                } else {
                    6
                })
                &&& forall|i: int|
                    0 <= i < spec.fact_fields.len() ==> #[trigger] spec.fact_fields[i]
                        == labels[i].id
            }
        }),
{
    if forall|m: int| 0 <= m < keys.len() ==> (#[trigger] keys[m]).id != key_id {
        chosen_key_has_the_id(keys, key_id, 0);
    } else {
        let k = first_with_id(keys, key_id);
        chosen_key_has_the_id(keys, key_id, k);
        assert(keys.contains(keys[k]));
    }
}

proof fn first_with_id(keys: Seq<KeyView>, id: Text) -> (k: int)
    requires
        exists|m: int| 0 <= m < keys.len() && (#[trigger] keys[m]).id == id,
    ensures
        0 <= k < keys.len(),
        keys[k].id == id,
        forall|m: int| 0 <= m < k ==> (#[trigger] keys[m]).id != id,
    decreases keys.len(),
{
    let front = keys.drop_last();
    if exists|m: int| 0 <= m < front.len() && (#[trigger] front[m]).id == id {
        let k = first_with_id(front, id);
        assert(keys[k] == front[k]);
        assert forall|m: int| 0 <= m < k implies (#[trigger] keys[m]).id != id by {
            assert(front[m] == keys[m]);
        }
        k
    } else {
        let k = keys.len() - 1;
        let m = choose|m: int| 0 <= m < keys.len() && (#[trigger] keys[m]).id == id;
        if m < front.len() {
            assert(front[m].id == id);
        }
        assert forall|m: int| 0 <= m < k implies (#[trigger] keys[m]).id != id by {
            assert(front[m] == keys[m]);
        }
        k
    }
}

/// The list of fields shows those whose id holds what is searched for, wherever
/// in it that is, and the chosen one; all of them, where nothing is searched
/// for. They keep their order.
pub proof fn searching_shows_what_holds_the_needle(
    fields: Seq<RoleView>,
    needle: Text,
    chosen: Text,
)
    ensures
        shown_fields(fields, needle, chosen) == fields.filter(
            |f: RoleView| occurs(f.id, needle) || f.id == chosen || needle.len() == 0,
        ),
    decreases fields.len(),
{
    reveal(Seq::filter);
    if fields.len() > 0 {
        searching_shows_what_holds_the_needle(fields.drop_last(), needle, chosen);
    } else {
        assert(shown_fields(fields, needle, chosen) =~= fields.filter(
            |f: RoleView| occurs(f.id, needle) || f.id == chosen || needle.len() == 0,
        ));
    }
}

/// The chosen field is called as the first with its id is spelled.
pub proof fn chosen_fields_keep_their_spelling(fields: Seq<RoleView>, id: Text, k: int)
    requires
        0 <= k < fields.len(),
        fields[k].id == id,
        forall|m: int| 0 <= m < k ==> (#[trigger] fields[m]).id != id,
    ensures
        label_with(fields, id) == fields[k].label,
    decreases fields.len(),
{
    if k > 0 {
        let rest = fields.drop_first();
        assert(fields[0].id != id);
        assert forall|m: int| 0 <= m < k - 1 implies (#[trigger] rest[m]).id != id by {
            assert(fields[m + 1].id != id);
        }
        chosen_fields_keep_their_spelling(rest, id, k - 1);
    }
}

/// A rule is made of the chosen field as it is and of what was typed, without
/// the white space around it; where either is missing there is none.
pub proof fn rules_are_made_of_what_was_typed(field: Text, value: Text, display: Text)
    ensures
        field.len() > 0 && trimmed(value).len() > 0 ==> pending_rule(field, value, display) == Some(
            RuleView { field, display, value: trimmed(value) },
        ),
        field.len() == 0 || trimmed(value).len() == 0 ==> pending_rule(
            field,
            value,
            display,
        ) is None,
{
}

/// Removing a rule leaves every other one, in its place, and none like it.
pub proof fn removing_leaves_the_others(rules: Seq<RuleView>, rule: RuleView)
    ensures
        without_rule(rules, rule) == rules.filter(|r: RuleView| r != rule),
    decreases rules.len(),
{
    reveal(Seq::filter);
    if rules.len() > 0 {
        removing_leaves_the_others(rules.drop_last(), rule);
    } else {
        assert(without_rule(rules, rule) =~= rules.filter(|r: RuleView| r != rule));
    }
}

/// Granting the role is offered exactly where access was refused: by the scan
/// as a whole, with the status 403, or by one of the containers.
pub proof fn access_is_offered_where_it_was_refused(state: ScanStateView)
    ensures
        state.load is Failed && (state.load->Failed_0).status == Some(403u16) ==> state.forbidden(),
        (exists|i: int| 0 <= i < state.errors.len() && (#[trigger] state.errors[i]).forbidden)
            ==> state.forbidden(),
        state.forbidden() ==> (state.load is Failed && (state.load->Failed_0).status == Some(
            403u16,
        )) || exists|i: int| 0 <= i < state.errors.len() && (#[trigger] state.errors[i]).forbidden,
{
}

/// What the list of keys says of one: its name, how many of the containers it
/// reaches, and that values match exactly where some are shared.
pub proof fn key_options_say_how_far_they_reach(key: KeyView, total: nat)
    ensures
        ({
            let front = key.label + "  —  "@ + decimal(key.bindings.len()) + "/"@ + decimal(total)
                + " containers"@;
            &&& key.shared_values == 0 ==> key_option_of(key, total) == front
            &&& key.shared_values > 0 ==> key_option_of(key, total) == front + ", values match"@
        }),
{
    let front = key.label + "  —  "@ + decimal(key.bindings.len()) + "/"@ + decimal(total)
        + " containers"@;
    assert(front + Seq::<char>::empty() =~= front);
}

} // verus!
