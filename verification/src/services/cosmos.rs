//! What is read out of a document account: the failures, the bounded answers
//! to queries, and the schemas of its containers.
//!
//! The store is schemaless, so there is no real "schema" to query. Instead a
//! handful of documents per container is sampled, and what is actually in them
//! is recorded: the field paths, the types seen, and the scalar values.

use crate::order::{
    arrange, arranged, arranged_forgets_order, arranged_in_order, arranged_is_permutation,
    is_order, told_apart,
    Arrange,
};
use crate::single::{of_count, quotient, tame, zero, Real, Single};
use crate::text::{
    concat, copies, is_before, names_in_turn, precedes, precedes_is_irreflexive, precedes_is_total,
    precedes_is_transitive, same, Text,
};
use crate::text_set::TextSet;
use crate::value::{Value, ValueView};
use vstd::prelude::*;

pub use crate::services::paths::{join_path, leaf, split_path};
pub use crate::services::sampling::infer_container_schema;

verus! {

/// How many documents of a container are sampled.
pub const SAMPLE_SIZE: usize = 20;

/// How many containers are sampled at once.
pub const SCAN_CONCURRENCY: usize = 8;

/// The names of the metadata that the store itself puts into every document:
/// left out wherever fields are offered as something to trace or label with.
/// `_ts` is the exception the callers make for themselves: it is useless as an
/// identifier and genuinely useful as a clock.
pub const SYSTEM_FIELDS: [&'static str; 6] = [
    "_rid",
    "_self",
    "_etag",
    "_attachments",
    "_ts",
    "_lsn",
];

/// Whether `name` is one of `SYSTEM_FIELDS`.
pub open spec fn is_system_field(name: Text) -> bool {
    exists|i: int| 0 <= i < 6 && (#[trigger] SYSTEM_FIELDS@[i])@ == name
}

/// Whether `name` is one of `SYSTEM_FIELDS`.
pub fn system_field(name: &str) -> (r: bool)
    ensures
        r == is_system_field(name@),
{
    let mut i: usize = 0;
    while i < 6
        invariant
            i <= 6,
            forall|j: int| 0 <= j < i ==> (#[trigger] SYSTEM_FIELDS@[j])@ != name@,
        decreases 6 - i,
    {
        if same(name, SYSTEM_FIELDS[i]) {
            return true;
        }
        i = i + 1;
    }
    false
}

// ── Failures ─────────────────────────────────────────────────────────────

/// A failure to read data, with the status code kept as a number.
///
/// The status is the part callers branch on: 403 means that the principal can
/// see the account but has no role to read its data, which the application can
/// offer to fix.
#[derive(Debug, PartialEq, Eq)]
pub struct DataError {
    pub message: String,
    pub status: Option<u16>,
}

impl DataError {
    /// The signed-in principal can see the account but not read its data.
    pub fn forbidden(&self) -> (r: bool)
        ensures
            r == (self.status == Some(403u16)),
    {
        match self.status {
            Some(status) => status == 403,
            None => false,
        }
    }

    /// What is shown of the failure.
    pub fn to_string(&self) -> (out: String)
        ensures
            out@ == self.message@,
    {
        self.message.clone()
    }
}

/// A failure to read data, as contracts speak of it.
pub struct DataErrorView {
    pub message: Text,
    pub status: Option<u16>,
}

impl View for DataError {
    type V = DataErrorView;

    open spec fn view(&self) -> DataErrorView {
        DataErrorView { message: self.message@, status: self.status }
    }
}

impl Clone for DataError {
    fn clone(&self) -> (out: Self)
        ensures
            out@ == self@,
    {
        DataError { message: self.message.clone(), status: self.status }
    }
}

fn context_and_detail(context: &str, detail: &str) -> (out: String)
    ensures
        out@ == context@ + ": "@ + detail@,
{
    let front = concat(context, ": ");
    concat(front.as_str(), detail)
}

/// A failure of the data plane, which always comes with a status.
pub fn fail(context: &str, status: u16, detail: &str) -> (out: DataError)
    ensures
        out@ == (DataErrorView {
            message: context@ + ": "@ + detail@,
            status: Some(status),
        }),
{
    DataError { message: context_and_detail(context, detail), status: Some(status) }
}

/// A failure of the control plane or of the credential, which carries a status
/// only when it came back off the wire.
pub fn fail_core(context: &str, status: Option<u16>, detail: &str) -> (out: DataError)
    ensures
        out@ == (DataErrorView { message: context@ + ": "@ + detail@, status }),
{
    DataError { message: context_and_detail(context, detail), status }
}

/// A plain message with no status behind it.
pub fn plain(message: String) -> (out: DataError)
    ensures
        out@ == (DataErrorView { message: message@, status: None }),
{
    DataError { message, status: None }
}

/// An endpoint that is no address of an account.
pub fn invalid_endpoint(endpoint: &str, detail: &str) -> (out: DataError)
    ensures
        out@ == (DataErrorView {
            message: "invalid Cosmos endpoint "@ + endpoint@ + ": "@ + detail@,
            status: None,
        }),
{
    let what = concat("invalid Cosmos endpoint ", endpoint);
    plain(context_and_detail(what.as_str(), detail))
}

// ── Schemas ──────────────────────────────────────────────────────────────

/// A field observed across the sampled documents of a container.
#[derive(Debug, PartialEq)]
pub struct FieldInfo {
    /// Dotted path: `correlationId`, or `properties.correlationId` when nested.
    pub name: String,
    /// The value types it was seen with (a field can be inconsistent across
    /// documents, which is itself useful to know).
    pub types: Vec<String>,
    pub seen_in: usize,
    /// Distinct scalar values among the sampled documents.
    pub distinct: usize,
    /// The scalar values themselves.
    pub values: TextSet,
}

/// A field, as contracts speak of it.
pub struct FieldView {
    pub name: Text,
    pub types: Seq<Text>,
    pub seen_in: nat,
    pub distinct: nat,
    pub values: Set<Text>,
}

impl View for FieldInfo {
    type V = FieldView;

    open spec fn view(&self) -> FieldView {
        FieldView {
            name: self.name@,
            types: self.types.deep_view(),
            seen_in: self.seen_in as nat,
            distinct: self.distinct as nat,
            values: self.values@,
        }
    }
}

impl DeepView for FieldInfo {
    type V = FieldView;

    open spec fn deep_view(&self) -> FieldView {
        self@
    }
}

impl Clone for FieldInfo {
    fn clone(&self) -> (out: Self)
        ensures
            out@ == self@,
    {
        FieldInfo {
            name: self.name.clone(),
            types: copies(&self.types),
            seen_in: self.seen_in,
            distinct: self.distinct,
            values: self.values.clone(),
        }
    }
}

/// The fraction of `whole` that `part` is, in single precision; none of nothing.
pub open spec fn fraction(part: nat, whole: nat) -> Real {
    if whole == 0 {
        zero()
    } else {
        quotient(of_count(part), of_count(whole))
    }
}

/// The fraction of `whole` that `part` is.
pub(crate) fn find_fraction(part: usize, whole: usize) -> (out: Single)
    ensures
        out@ == fraction(part as nat, whole as nat),
        tame(out@, 390),
        !out@.neg,
{
    if whole == 0 {
        Single::zero()
    } else {
        Single::of(part).over(&Single::of(whole), Ghost(130))
    }
}

impl FieldView {
    /// The fraction of sampled documents that carry the field.
    pub open spec fn fill(self, sampled_docs: nat) -> Real {
        fraction(self.seen_in, sampled_docs)
    }

    /// How selective the field is.
    pub open spec fn distinct_ratio(self) -> Real {
        fraction(self.distinct, self.seen_in)
    }

    /// Whether the field was ever seen to hold a text or a number.
    pub open spec fn is_scalar(self) -> bool {
        self.types.contains("string"@) || self.types.contains("number"@)
    }
}

impl FieldInfo {
    /// The fraction of sampled documents that carry this field.
    pub fn fill(&self, sampled_docs: usize) -> (out: Single)
        ensures
            out@ == self@.fill(sampled_docs as nat),
    {
        find_fraction(self.seen_in, sampled_docs)
    }

    /// How selective the field is: one means a different value in every document
    /// it appears in, near zero means a handful of repeated values.
    pub fn distinct_ratio(&self) -> (out: Single)
        ensures
            out@ == self@.distinct_ratio(),
    {
        find_fraction(self.distinct, self.seen_in)
    }

    /// Whether the field was ever seen to hold a text or a number.
    pub fn is_scalar(&self) -> (r: bool)
        ensures
            r == self@.is_scalar(),
    {
        crate::text::is_listed(&self.types, "string") || crate::text::is_listed(
            &self.types,
            "number",
        )
    }
}

/// What the sampled documents of one container show.
#[derive(Debug, PartialEq)]
pub struct ContainerSchema {
    pub database: String,
    pub container: String,
    pub sampled_docs: usize,
    pub fields: Vec<FieldInfo>,
}

/// The schema of a container, as contracts speak of it.
pub struct SchemaView {
    pub database: Text,
    pub container: Text,
    pub sampled_docs: nat,
    pub fields: Seq<FieldView>,
}

impl View for ContainerSchema {
    type V = SchemaView;

    open spec fn view(&self) -> SchemaView {
        SchemaView {
            database: self.database@,
            container: self.container@,
            sampled_docs: self.sampled_docs as nat,
            fields: self.fields.deep_view(),
        }
    }
}

impl DeepView for ContainerSchema {
    type V = SchemaView;

    open spec fn deep_view(&self) -> SchemaView {
        self@
    }
}

impl Clone for ContainerSchema {
    fn clone(&self) -> (out: Self)
        ensures
            out@ == self@,
    {
        let mut fields: Vec<FieldInfo> = Vec::new();
        let mut i: usize = 0;
        while i < self.fields.len()
            invariant
                i <= self.fields@.len(),
                fields@.len() == i,
                forall|j: int| 0 <= j < i ==> (#[trigger] fields@[j])@ == self.fields@[j]@,
            decreases self.fields.len() - i,
        {
            fields.push(self.fields[i].clone());
            i = i + 1;
        }
        assert(fields.deep_view() =~= self.fields.deep_view());
        ContainerSchema {
            database: self.database.clone(),
            container: self.container.clone(),
            sampled_docs: self.sampled_docs,
            fields,
        }
    }
}

/// How the container `container` of `database` is named.
pub open spec fn container_path(database: Text, container: Text) -> Text {
    database + "/"@ + container
}

/// How the container `container` of `database` is named.
pub fn path_of(database: &str, container: &str) -> (out: String)
    ensures
        out@ == container_path(database@, container@),
{
    let front = concat(database, "/");
    concat(front.as_str(), container)
}

impl ContainerSchema {
    /// `database/container`.
    pub fn path(&self) -> (out: String)
        ensures
            out@ == container_path(self@.database, self@.container),
    {
        path_of(self.database.as_str(), self.container.as_str())
    }
}

// ── Bounded answers ──────────────────────────────────────────────────────

/// What a bounded query returned, and whether the bound was the reason it
/// stopped.
///
/// The distinction is the whole point: a lane holding the first 200 of 500
/// documents is not the same claim as a lane holding all 200 there are.
#[derive(Debug, PartialEq)]
pub struct Page {
    pub docs: Vec<Value>,
    pub truncated: bool,
}

/// A bounded answer, as contracts speak of it.
pub struct PageView {
    pub docs: Seq<ValueView>,
    pub truncated: bool,
}

impl View for Page {
    type V = PageView;

    open spec fn view(&self) -> PageView {
        PageView { docs: self.docs.deep_view(), truncated: self.truncated }
    }
}

/// The bounded answer to a query that the documents `docs` match.
pub open spec fn page_of(docs: Seq<ValueView>, limit: nat) -> PageView {
    PageView {
        docs: if docs.len() <= limit {
            docs
        } else {
            docs.take(limit as int)
        },
        truncated: docs.len() > limit,
    }
}

/// The answer `page` once one more document has arrived.
pub open spec fn page_with(page: PageView, doc: ValueView, limit: nat) -> PageView {
    if page.truncated || page.docs.len() >= limit {
        PageView { docs: page.docs, truncated: true }
    } else {
        PageView { docs: page.docs.push(doc), truncated: false }
    }
}

/// How many documents to ask for: one more than `limit`, because the presence
/// of that one is what says that the answer was cut short.
pub fn probe_size(limit: usize) -> (n: u32)
    ensures
        n == (if limit < u32::MAX {
            limit + 1
        } else {
            u32::MAX as int
        }),
{
    if limit < 0xffff_ffff {
        limit as u32 + 1
    } else {
        u32::MAX
    }
}

impl Page {
    /// An answer with nothing in it yet.
    pub fn new() -> (out: Self)
        ensures
            forall|limit: nat| out@ == #[trigger] page_of(Seq::empty(), limit),
    {
        let out = Page { docs: Vec::new(), truncated: false };
        assert(out.docs.deep_view() =~= Seq::<ValueView>::empty());
        out
    }

    /// Takes the next document that arrived, unless the answer is full; the
    /// document beyond `limit` is what marks it as cut short. Says whether to
    /// go on reading.
    pub fn take(&mut self, doc: Value, limit: usize) -> (more: bool)
        ensures
            final(self)@ == page_with(old(self)@, doc@, limit as nat),
            more == !final(self)@.truncated,
    {
        let ghost docs = self.docs.deep_view();
        if self.truncated || self.docs.len() >= limit {
            self.truncated = true;
            false
        } else {
            let ghost d = doc@;
            self.docs.push(doc);
            assert(self.docs.deep_view() =~= docs.push(d));
            true
        }
    }
}

/// Taking the documents one by one as they arrive gives the bounded answer to
/// all of them: never more than `limit`, and marked as cut short exactly when
/// there were more.
pub proof fn page_grows(docs: Seq<ValueView>, doc: ValueView, limit: nat)
    ensures
        page_with(page_of(docs, limit), doc, limit) == page_of(docs.push(doc), limit),
        page_of(docs, limit).docs.len() <= limit,
{
    if docs.len() == limit {
        assert(docs.push(doc).take(limit as int) =~= docs);
    } else if docs.len() > limit {
        assert(docs.push(doc).take(limit as int) =~= docs.take(limit as int));
    }
}

// ── Scanning an account ──────────────────────────────────────────────────

/// A container that could not be sampled, and why.
#[derive(Debug, PartialEq)]
pub struct ContainerError {
    /// `database/container`, or just the database when the listing failed.
    pub path: String,
    pub message: String,
    /// Access to the data is missing, which the application can offer to
    /// grant.
    pub forbidden: bool,
}

/// A container that could not be sampled, as contracts speak of it.
pub struct ContainerErrorView {
    pub path: Text,
    pub message: Text,
    pub forbidden: bool,
}

impl View for ContainerError {
    type V = ContainerErrorView;

    open spec fn view(&self) -> ContainerErrorView {
        ContainerErrorView {
            path: self.path@,
            message: self.message@,
            forbidden: self.forbidden,
        }
    }
}

impl DeepView for ContainerError {
    type V = ContainerErrorView;

    open spec fn deep_view(&self) -> ContainerErrorView {
        self@
    }
}

impl Clone for ContainerError {
    fn clone(&self) -> (out: Self)
        ensures
            out@ == self@,
    {
        ContainerError {
            path: self.path.clone(),
            message: self.message.clone(),
            forbidden: self.forbidden,
        }
    }
}

/// What is recorded of the failure `e` to look at `path`.
pub open spec fn recorded(path: Text, e: DataErrorView) -> ContainerErrorView {
    ContainerErrorView { path, message: e.message, forbidden: e.status == Some(403u16) }
}

impl ContainerError {
    /// What is recorded of the failure `e` to look at `path`.
    pub fn new(path: String, e: DataError) -> (out: Self)
        ensures
            out@ == recorded(path@, e@),
    {
        let forbidden = e.forbidden();
        ContainerError { path, forbidden, message: e.message }
    }
}

/// What a scan found, and what it could not look at.
///
/// Both halves: one container the caller cannot read must not blank the whole
/// account, and it must not vanish either, for a schema list that misses a
/// container silently is a trace that never looks there.
#[derive(Debug, PartialEq)]
pub struct AccountSchemas {
    pub schemas: Vec<ContainerSchema>,
    pub errors: Vec<ContainerError>,
}

/// The outcome of a scan, as contracts speak of it.
pub struct AccountView {
    pub schemas: Seq<SchemaView>,
    pub errors: Seq<ContainerErrorView>,
}

impl View for AccountSchemas {
    type V = AccountView;

    open spec fn view(&self) -> AccountView {
        AccountView { schemas: self.schemas.deep_view(), errors: self.errors.deep_view() }
    }
}

impl Default for AccountSchemas {
    fn default() -> (out: Self)
        ensures
            out@ == (AccountView { schemas: Seq::empty(), errors: Seq::empty() }),
    {
        let out = AccountSchemas { schemas: Vec::new(), errors: Vec::new() };
        assert(out.schemas.deep_view() =~= Seq::<SchemaView>::empty());
        assert(out.errors.deep_view() =~= Seq::<ContainerErrorView>::empty());
        out
    }
}

/// The containers of one database, or why they could not be listed.
#[derive(Debug, PartialEq)]
pub struct Listing {
    pub database: String,
    pub containers: Result<Vec<String>, DataError>,
}

/// A listing, as contracts speak of it.
pub struct ListingView {
    pub database: Text,
    pub containers: Result<Seq<Text>, DataErrorView>,
}

impl View for Listing {
    type V = ListingView;

    open spec fn view(&self) -> ListingView {
        ListingView {
            database: self.database@,
            containers: match self.containers {
                Ok(names) => Ok(names.deep_view()),
                Err(e) => Err(e@),
            },
        }
    }
}

impl DeepView for Listing {
    type V = ListingView;

    open spec fn deep_view(&self) -> ListingView {
        self@
    }
}

/// The containers that can be sampled, and what could not be listed.
#[derive(Debug, PartialEq)]
pub struct ScanPlan {
    /// Pairs of a database and a container of it.
    pub paths: Vec<(String, String)>,
    pub errors: Vec<ContainerError>,
}

/// Each container of `containers` with the database it belongs to.
pub open spec fn placed_in(database: Text, containers: Seq<Text>) -> Seq<(Text, Text)> {
    Seq::new(containers.len(), |i: int| (database, containers[i]))
}

/// The containers that could be listed, in the order of the listings.
pub open spec fn containers_listed(listings: Seq<ListingView>) -> Seq<(Text, Text)>
    decreases listings.len(),
{
    if listings.len() == 0 {
        Seq::empty()
    } else {
        containers_listed(listings.drop_last()) + (match listings.last().containers {
            Ok(names) => placed_in(listings.last().database, names),
            Err(_) => Seq::empty(),
        })
    }
}

/// The failures among the listings, each recorded under its database.
pub open spec fn listing_errors(listings: Seq<ListingView>) -> Seq<ContainerErrorView>
    decreases listings.len(),
{
    if listings.len() == 0 {
        Seq::empty()
    } else {
        let front = listing_errors(listings.drop_last());
        match listings.last().containers {
            Ok(_) => front,
            Err(e) => front.push(recorded(listings.last().database, e)),
        }
    }
}

/// What is to be sampled once every database has been asked for its
/// containers. A database that would not answer is recorded and passed over.
pub fn plan_scan(listings: Vec<Listing>) -> (out: ScanPlan)
    ensures
        out.paths.deep_view() == containers_listed(listings.deep_view()),
        out.errors.deep_view() == listing_errors(listings.deep_view()),
{
    let ghost all = listings.deep_view();
    let mut paths: Vec<(String, String)> = Vec::new();
    let mut errors: Vec<ContainerError> = Vec::new();
    let mut i: usize = 0;
    assert(paths.deep_view() =~= containers_listed(all.take(0)));
    assert(errors.deep_view() =~= listing_errors(all.take(0)));
    while i < listings.len()
        invariant
            all == listings.deep_view(),
            i <= listings@.len(),
            paths.deep_view() == containers_listed(all.take(i as int)),
            errors.deep_view() == listing_errors(all.take(i as int)),
        decreases listings.len() - i,
    {
        let listing = &listings[i];
        let ghost upto = all.take(i + 1);
        assert(upto.drop_last() =~= all.take(i as int));
        assert(upto.last() == listing@);
        let ghost before = paths.deep_view();
        match &listing.containers {
            Ok(names) => {
                let ghost placed = placed_in(listing.database@, names.deep_view());
                let mut k: usize = 0;
                assert(before + placed.take(0) =~= before);
                while k < names.len()
                    invariant
                        k <= names@.len(),
                        placed == placed_in(listing.database@, names.deep_view()),
                        paths.deep_view() == before + placed.take(k as int),
                    decreases names.len() - k,
                {
                    let ghost here = paths.deep_view();
                    let database = listing.database.clone();
                    let name = names[k].clone();
                    paths.push((database, name));
                    assert(paths.deep_view() =~= here.push((database@, name@)));
                    assert(before + placed.take(k + 1) =~= (before + placed.take(k as int)).push(
                        placed[k as int],
                    ));
                    k = k + 1;
                }
                assert(placed.take(k as int) =~= placed);
            },
            Err(e) => {
                let ghost here = errors.deep_view();
                let error = ContainerError::new(listing.database.clone(), e.clone());
                let ghost view = error@;
                errors.push(error);
                assert(errors.deep_view() =~= here.push(view));
                assert(before + Seq::<(Text, Text)>::empty() =~= before);
            },
        }
        i = i + 1;
    }
    assert(all.take(i as int) =~= all);
    ScanPlan { paths, errors }
}

/// What sampling one container came to.
#[derive(Debug, PartialEq)]
pub struct Sampled {
    /// `database/container`.
    pub path: String,
    pub result: Result<ContainerSchema, DataError>,
}

/// What sampling one container came to, as contracts speak of it.
pub enum SampledView {
    Schema(SchemaView),
    Error(ContainerErrorView),
}

impl View for Sampled {
    type V = SampledView;

    open spec fn view(&self) -> SampledView {
        match self.result {
            Ok(schema) => SampledView::Schema(schema@),
            Err(e) => SampledView::Error(recorded(self.path@, e@)),
        }
    }
}

impl DeepView for Sampled {
    type V = SampledView;

    open spec fn deep_view(&self) -> SampledView {
        self@
    }
}

/// The schemas among what sampling came to.
pub open spec fn schemas_among(sampled: Seq<SampledView>) -> Seq<SchemaView>
    decreases sampled.len(),
{
    if sampled.len() == 0 {
        Seq::empty()
    } else {
        let front = schemas_among(sampled.drop_last());
        match sampled.last() {
            SampledView::Schema(schema) => front.push(schema),
            SampledView::Error(_) => front,
        }
    }
}

/// The failures among what sampling came to.
pub open spec fn errors_among(sampled: Seq<SampledView>) -> Seq<ContainerErrorView>
    decreases sampled.len(),
{
    if sampled.len() == 0 {
        Seq::empty()
    } else {
        let front = errors_among(sampled.drop_last());
        match sampled.last() {
            SampledView::Schema(_) => front,
            SampledView::Error(e) => front.push(e),
        }
    }
}

/// Schemas go by database, then by container.
pub open spec fn schema_before(a: SchemaView, b: SchemaView) -> bool {
    precedes(a.database, b.database) || (a.database == b.database && precedes(
        a.container,
        b.container,
    ))
}

/// Failures go by path.
pub open spec fn error_before(a: ContainerErrorView, b: ContainerErrorView) -> bool {
    precedes(a.path, b.path)
}

/// The outcome of a scan whose listings failed as in `listing` and whose
/// containers were sampled as in `sampled`.
pub open spec fn account_of(
    listing: Seq<ContainerErrorView>,
    sampled: Seq<SampledView>,
) -> AccountView {
    AccountView {
        schemas: arranged(
            schemas_among(sampled),
            |a: SchemaView, b: SchemaView| schema_before(a, b),
        ),
        errors: arranged(
            listing + errors_among(sampled),
            |a: ContainerErrorView, b: ContainerErrorView| error_before(a, b),
        ),
    }
}

impl Arrange for ContainerSchema {
    open spec fn before() -> spec_fn(SchemaView, SchemaView) -> bool {
        |a: SchemaView, b: SchemaView| schema_before(a, b)
    }

    fn comes_before(&self, other: &Self) -> (r: bool) {
        is_before(self.database.as_str(), other.database.as_str()) || (same(
            self.database.as_str(),
            other.database.as_str(),
        ) && is_before(self.container.as_str(), other.container.as_str()))
    }
}

impl Arrange for ContainerError {
    open spec fn before() -> spec_fn(ContainerErrorView, ContainerErrorView) -> bool {
        |a: ContainerErrorView, b: ContainerErrorView| error_before(a, b)
    }

    fn comes_before(&self, other: &Self) -> (r: bool) {
        is_before(self.path.as_str(), other.path.as_str())
    }
}

/// Puts together what listing and sampling came to. Nothing below the listing
/// of the databases aborts a scan: it is recorded and passed over.
pub fn scan_account(listing: Vec<ContainerError>, sampled: Vec<Sampled>) -> (out: AccountSchemas)
    ensures
        out@ == account_of(listing.deep_view(), sampled.deep_view()),
{
    let ghost all = sampled.deep_view();
    let ghost listed = listing.deep_view();
    let mut rest = sampled;
    let mut schemas: Vec<ContainerSchema> = Vec::new();
    let mut errors = listing;
    let ghost mut done: int = 0;
    assert(schemas.deep_view() =~= schemas_among(all.take(0)));
    assert(errors.deep_view() =~= listed + errors_among(all.take(0)));
    assert(rest.deep_view() =~= all.skip(0));
    while rest.len() > 0
        invariant
            0 <= done <= all.len(),
            rest.deep_view() == all.skip(done),
            schemas.deep_view() == schemas_among(all.take(done)),
            errors.deep_view() == listed + errors_among(all.take(done)),
        decreases rest.len(),
    {
        let ghost before = rest.deep_view();
        let one = rest.remove(0);
        assert(before[0] == one@);
        assert(rest.deep_view() =~= before.drop_first());
        assert(all.skip(done).drop_first() =~= all.skip(done + 1));
        assert(all.take(done + 1).drop_last() =~= all.take(done));
        assert(all.take(done + 1).last() == one@);
        let ghost schemas_before = schemas.deep_view();
        let ghost errors_before = errors.deep_view();
        match one.result {
            Ok(schema) => {
                schemas.push(schema);
                assert(schemas.deep_view() =~= schemas_before.push(schema@));
            },
            Err(e) => {
                let error = ContainerError::new(one.path, e);
                let ghost view = error@;
                errors.push(error);
                assert(errors.deep_view() =~= errors_before.push(view));
                assert(errors.deep_view() =~= listed + errors_among(all.take(done + 1)));
            },
        }
        proof {
            done = done + 1;
        }
    }
    assert(rest.deep_view().len() == 0);
    assert(all.take(done) =~= all);
    AccountSchemas { schemas: arrange(schemas), errors: arrange(errors) }
}

proof fn schema_before_is_order()
    ensures
        is_order(|a: SchemaView, b: SchemaView| schema_before(a, b)),
{
    let before = |a: SchemaView, b: SchemaView| schema_before(a, b);
    assert forall|a: SchemaView, b: SchemaView| #[trigger] before(a, b) implies !before(b, a) by {
        names_in_turn(a.database, b.database, a.database);
        names_in_turn(a.container, b.container, a.container);
        precedes_is_irreflexive(a.database);
    }
    assert forall|a: SchemaView, b: SchemaView, c: SchemaView|
        !#[trigger] before(a, b) && !#[trigger] before(b, c) implies !before(a, c) by {
        names_in_turn(a.database, b.database, c.database);
        names_in_turn(a.container, b.container, c.container);
        precedes_is_total(a.database, b.database);
        precedes_is_total(b.database, c.database);
        if precedes(b.database, a.database) && precedes(c.database, b.database) {
            precedes_is_transitive(c.database, b.database, a.database);
        }
        precedes_is_irreflexive(a.database);
        precedes_is_irreflexive(b.database);
    }
}

proof fn error_before_is_order()
    ensures
        is_order(|a: ContainerErrorView, b: ContainerErrorView| error_before(a, b)),
{
    let before = |a: ContainerErrorView, b: ContainerErrorView| error_before(a, b);
    assert forall|a: ContainerErrorView, b: ContainerErrorView| #[trigger]
        before(a, b) implies !before(b, a) by {
        names_in_turn(a.path, b.path, a.path);
    }
    assert forall|a: ContainerErrorView, b: ContainerErrorView, c: ContainerErrorView|
        !#[trigger] before(a, b) && !#[trigger] before(b, c) implies !before(a, c) by {
        names_in_turn(a.path, b.path, c.path);
    }
}

proof fn among_counts(s: Seq<SampledView>)
    ensures
        forall|x: SchemaView| #[trigger]
            schemas_among(s).to_multiset().count(x) == s.to_multiset().count(
                SampledView::Schema(x),
            ),
        forall|x: ContainerErrorView| #[trigger]
            errors_among(s).to_multiset().count(x) == s.to_multiset().count(SampledView::Error(x)),
        schemas_among(s).len() + errors_among(s).len() == s.len(),
    decreases s.len(),
{
    broadcast use vstd::seq_lib::group_to_multiset_ensures;

    if s.len() > 0 {
        among_counts(s.drop_last());
        assert(s =~= s.drop_last().push(s.last()));
    }
}

/// A scan keeps everything that listing and sampling came to: every schema is
/// in its list, every failure in its own, each as often as it came, and
/// nothing else is there.
pub proof fn scan_loses_nothing(listing: Seq<ContainerErrorView>, sampled: Seq<SampledView>)
    ensures
        ({
            let out = account_of(listing, sampled);
            &&& out.schemas.len() + out.errors.len() == listing.len() + sampled.len()
            &&& forall|x: SchemaView| #[trigger]
                out.schemas.to_multiset().count(x) == sampled.to_multiset().count(
                    SampledView::Schema(x),
                )
            &&& forall|x: ContainerErrorView| #[trigger]
                out.errors.to_multiset().count(x) == listing.to_multiset().count(x)
                    + sampled.to_multiset().count(SampledView::Error(x))
        }),
{
    let schemas = schemas_among(sampled);
    let errors = listing + errors_among(sampled);
    among_counts(sampled);
    arranged_is_permutation(schemas, |a: SchemaView, b: SchemaView| schema_before(a, b));
    arranged_is_permutation(
        errors,
        |a: ContainerErrorView, b: ContainerErrorView| error_before(a, b),
    );
    vstd::seq_lib::lemma_multiset_commutative(listing, errors_among(sampled));
}

/// Containers are sampled side by side and answer in any order. As long as no
/// two of them share a name, the order has no effect on the outcome: two scans
/// of the same account list their containers alike.
pub proof fn scan_forgets_order(
    listing: Seq<ContainerErrorView>,
    a: Seq<SampledView>,
    b: Seq<SampledView>,
)
    requires
        a.to_multiset() == b.to_multiset(),
        told_apart(schemas_among(a), |x: SchemaView, y: SchemaView| schema_before(x, y)),
        told_apart(
            listing + errors_among(a),
            |x: ContainerErrorView, y: ContainerErrorView| error_before(x, y),
        ),
    ensures
        account_of(listing, a) == account_of(listing, b),
{
    among_counts(a);
    among_counts(b);
    schema_before_is_order();
    error_before_is_order();
    assert(schemas_among(a).to_multiset() =~= schemas_among(b).to_multiset());
    assert(errors_among(a).to_multiset() =~= errors_among(b).to_multiset());
    vstd::seq_lib::lemma_multiset_commutative(listing, errors_among(a));
    vstd::seq_lib::lemma_multiset_commutative(listing, errors_among(b));
    arranged_forgets_order(
        schemas_among(a),
        schemas_among(b),
        |x: SchemaView, y: SchemaView| schema_before(x, y),
    );
    arranged_forgets_order(
        listing + errors_among(a),
        listing + errors_among(b),
        |x: ContainerErrorView, y: ContainerErrorView| error_before(x, y),
    );
}

// ── What a scan promises ─────────────────────────────────────────────────

/// A bounded answer holds the first documents, as many as fit, and says that it
/// was cut short exactly where there were more.
pub proof fn pages_hold_the_first_documents(docs: Seq<ValueView>, limit: nat)
    ensures
        page_of(docs, limit).docs.len() == (if docs.len() < limit {
            docs.len()
        } else {
            limit
        }),
        forall|i: int|
            0 <= i < page_of(docs, limit).docs.len() ==> #[trigger] page_of(docs, limit).docs[i]
                == docs[i],
        page_of(docs, limit).truncated <==> docs.len() > limit,
{
}

/// A failure is recorded under its path with its own message; it is one of
/// access exactly where its status is 403.
pub proof fn failures_are_recorded_as_they_are(path: Text, e: DataErrorView)
    ensures
        recorded(path, e).path == path,
        recorded(path, e).message == e.message,
        recorded(path, e).forbidden <==> e.status == Some(403u16),
{
}

/// Every container of a database that answered is sampled, in the order it was
/// listed; a database that did not is recorded under its name, and holds up none
/// of the others.
pub proof fn listings_are_taken_in_turn(front: Seq<ListingView>, last: ListingView)
    ensures
        match last.containers {
            Ok(names) => {
                &&& containers_listed(front.push(last)).len() == containers_listed(front).len()
                    + names.len()
                &&& forall|i: int|
                    0 <= i < containers_listed(front).len() ==> #[trigger] containers_listed(
                        front.push(last),
                    )[i] == containers_listed(front)[i]
                &&& forall|i: int|
                    0 <= i < names.len() ==> containers_listed(
                        front.push(last),
                    )[containers_listed(front).len() + i] == (last.database, #[trigger] names[i])
                &&& listing_errors(front.push(last)) == listing_errors(front)
            },
            Err(e) => {
                &&& containers_listed(front.push(last)) == containers_listed(front)
                &&& listing_errors(front.push(last)) == listing_errors(front).push(
                    recorded(last.database, e),
                )
            },
        },
        containers_listed(Seq::empty()).len() == 0,
        listing_errors(Seq::empty()).len() == 0,
{
    assert(front.push(last).drop_last() =~= front);
    assert(containers_listed(front) + Seq::<(Text, Text)>::empty() =~= containers_listed(front));
}

/// The outcome of a scan goes by name: schemas by their database and then their
/// container, failures by their path.
pub proof fn scans_go_by_name(
    listing: Seq<ContainerErrorView>,
    sampled: Seq<SampledView>,
    i: int,
    j: int,
)
    ensures
        ({
            let out = account_of(listing, sampled);
            &&& 0 <= i < j < out.schemas.len() ==> {
                let (a, b) = (out.schemas[i], out.schemas[j]);
                &&& !precedes(b.database, a.database)
                &&& a.database == b.database ==> !precedes(b.container, a.container)
            }
            &&& 0 <= i < j < out.errors.len() ==> !precedes(
                out.errors[j].path,
                out.errors[i].path,
            )
        }),
{
    let a = |x: SchemaView, y: SchemaView| schema_before(x, y);
    let b = |x: ContainerErrorView, y: ContainerErrorView| error_before(x, y);
    schema_before_is_order();
    error_before_is_order();
    arranged_in_order(schemas_among(sampled), a);
    arranged_in_order(listing + errors_among(sampled), b);
    let out = account_of(listing, sampled);
    if 0 <= i < j < out.schemas.len() {
        assert(!a(out.schemas[j], out.schemas[i]));
    }
    if 0 <= i < j < out.errors.len() {
        assert(!b(out.errors[j], out.errors[i]));
    }
}

/// The fraction that a field is found in is its count over that of the
/// documents, and how selective it is that of its distinct values over its own
/// count; of nothing there is no fraction. A container is called by its database
/// and its name.
pub proof fn fractions_are_of_what_was_sampled(field: FieldView, docs: nat, d: Text, c: Text)
    ensures
        docs > 0 ==> field.fill(docs) == quotient(of_count(field.seen_in), of_count(docs)),
        field.fill(0) == zero(),
        field.seen_in > 0 ==> field.distinct_ratio() == quotient(
            of_count(field.distinct),
            of_count(field.seen_in),
        ),
        field.seen_in == 0 ==> field.distinct_ratio() == zero(),
        field.is_scalar() <==> field.types.contains("string"@) || field.types.contains("number"@),
        container_path(d, c) == d + "/"@ + c,
{
}

} // verus!
