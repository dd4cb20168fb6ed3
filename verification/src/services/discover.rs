//! Discovery of what makes a set of containers traceable, whatever they hold.
//!
//! Nothing here knows about any particular schema. Given the sampled
//! documents, it works out three things a trace view needs:
//!
//!   * **a correlation key**: the field whose value ties the steps of one flow
//!     together,
//!   * **a time field**: what orders those steps,
//!   * **a step label**: what to call each step.
//!
//! The key is the hard one: see `nodes` and `keys`. Names are used only as a weak
//! tie-breaker, so an unfamiliar schema ranks on evidence alone.

use crate::order::{
    arrange, arranged, arranged_in_order, arranged_is_permutation, ascending, distinct,
    distinct_is_ascending, distinct_of, in_order, is_order, same_items, Arrange,
};
use crate::services::cosmos::{
    container_path, is_system_field, system_field, ContainerSchema, FieldInfo, FieldView,
    SchemaView,
};
use crate::services::keys::{container_paths, key_candidates, keys_of, paths_of};
use crate::services::nodes::{are_mostly_ids, is_offered, mostly_ids, offered};
use crate::services::shapes::{looks_like_time, time_shaped};
use crate::single::{a_half_is_less_than_one, below, below_is_an_order, of_count, of_ratio, Real, Single};
use crate::text::{
    byte_len, byte_length, concat, copies, count, decimal, is_before, is_listed, lowered, names_in_turn,
    precedes, same, to_lower, Text,
};
use crate::text_set::TextSet;
use vstd::prelude::*;

pub use crate::services::keys::{first_binding, Binding, Evidence, KeyCandidate, KeyView};

verus! {

// ── Roles ────────────────────────────────────────────────────────────────

/// A candidate for the roles that don't need value-linking.
#[derive(Debug, PartialEq)]
pub struct RoleCandidate {
    /// Lowercased field path; matched case-insensitively per container.
    pub id: String,
    pub label: String,
    pub containers: Vec<String>,
    pub note: String,
    pub score: Single,
}

/// A candidate for a role, as contracts speak of it.
pub struct RoleView {
    pub id: Text,
    pub label: Text,
    pub containers: Seq<Text>,
    pub note: Text,
    pub score: Real,
}

impl View for RoleCandidate {
    type V = RoleView;

    open spec fn view(&self) -> RoleView {
        RoleView {
            id: self.id@,
            label: self.label@,
            containers: self.containers.deep_view(),
            note: self.note@,
            score: self.score@,
        }
    }
}

impl DeepView for RoleCandidate {
    type V = RoleView;

    open spec fn deep_view(&self) -> RoleView {
        self@
    }
}

impl Clone for RoleCandidate {
    fn clone(&self) -> (out: Self)
        ensures
            out@ == self@,
    {
        RoleCandidate {
            id: self.id.clone(),
            label: self.label.clone(),
            containers: copies(&self.containers),
            note: self.note.clone(),
            score: self.score,
        }
    }
}

/// A field that can play a role, and where.
struct Seen {
    id: String,
    label: String,
    container: String,
    distinct: usize,
}

/// A field that can play a role, and where, as contracts speak of it.
pub struct SeenView {
    pub id: Text,
    pub label: Text,
    pub container: Text,
    pub distinct: nat,
}

impl View for Seen {
    type V = SeenView;

    closed spec fn view(&self) -> SeenView {
        SeenView {
            id: self.id@,
            label: self.label@,
            container: self.container@,
            distinct: self.distinct as nat,
        }
    }
}

impl DeepView for Seen {
    type V = SeenView;

    closed spec fn deep_view(&self) -> SeenView {
        self@
    }
}

/// The field `field` of `schema`, as something that can play a role.
pub open spec fn seen_in(schema: SchemaView, field: FieldView) -> SeenView {
    SeenView {
        id: lowered(field.name),
        label: field.name,
        container: container_path(schema.database, schema.container),
        distinct: field.distinct,
    }
}

/// The fields among `fields` of a schema that `accept` accepts.
pub open spec fn seen_among(
    schema: SchemaView,
    fields: Seq<FieldView>,
    accept: spec_fn(SchemaView, FieldView) -> bool,
) -> Seq<SeenView>
    decreases fields.len(),
{
    if fields.len() == 0 {
        Seq::empty()
    } else {
        let front = seen_among(schema, fields.drop_last(), accept);
        if accept(schema, fields.last()) {
            front.push(seen_in(schema, fields.last()))
        } else {
            front
        }
    }
}

/// The fields of all schemas that `accept` accepts.
pub open spec fn all_seen(
    schemas: Seq<SchemaView>,
    accept: spec_fn(SchemaView, FieldView) -> bool,
) -> Seq<SeenView>
    decreases schemas.len(),
{
    if schemas.len() == 0 {
        Seq::empty()
    } else {
        all_seen(schemas.drop_last(), accept) + seen_among(
            schemas.last(),
            schemas.last().fields,
            accept,
        )
    }
}

/// The lowercased paths of `seen`.
pub open spec fn ids_of(seen: Seq<SeenView>) -> Seq<Text> {
    Seq::new(seen.len(), |i: int| seen[i].id)
}

/// The containers in which the field `id` was seen, in order.
pub open spec fn containers_with(seen: Seq<SeenView>, id: Text) -> Seq<Text>
    decreases seen.len(),
{
    if seen.len() == 0 {
        Seq::empty()
    } else if seen.last().id == id {
        containers_with(seen.drop_last(), id).push(seen.last().container)
    } else {
        containers_with(seen.drop_last(), id)
    }
}

/// How the field `id` was spelled where it was first seen.
pub open spec fn first_spelling(seen: Seq<SeenView>, id: Text) -> Text
    decreases seen.len(),
{
    if seen.len() == 0 {
        Seq::empty()
    } else if seen[0].id == id {
        seen[0].label
    } else {
        first_spelling(seen.drop_first(), id)
    }
}

/// The most distinct values that the field `id` had in one container.
pub open spec fn most_distinct(seen: Seq<SeenView>, id: Text) -> nat
    decreases seen.len(),
{
    if seen.len() == 0 {
        0
    } else {
        let front = most_distinct(seen.drop_last(), id);
        if seen.last().id == id && seen.last().distinct > front {
            seen.last().distinct
        } else {
            front
        }
    }
}

/// The candidate that the field `id` makes; `note` says what is noted of so
/// many containers and distinct values.
pub open spec fn role_of(seen: Seq<SeenView>, id: Text, note: spec_fn(nat, nat) -> Text) -> RoleView {
    let containers = containers_with(seen, id);
    RoleView {
        id,
        label: first_spelling(seen, id),
        containers,
        note: note(containers.len(), most_distinct(seen, id)),
        score: of_count(containers.len()),
    }
}

/// The candidates that the fields `seen` make, by lowercased path.
pub open spec fn roles_of(seen: Seq<SeenView>, note: spec_fn(nat, nat) -> Text) -> Seq<RoleView> {
    let ids = distinct(ids_of(seen));
    Seq::new(ids.len(), |i: int| role_of(seen, ids[i], note))
}

/// Better candidates come first, then by name.
pub open spec fn role_before(a: RoleView, b: RoleView) -> bool {
    below(b.score, a.score) || (!below(a.score, b.score) && precedes(a.label, b.label))
}

/// The order of `role_before`.
pub open spec fn by_score() -> spec_fn(RoleView, RoleView) -> bool {
    |a: RoleView, b: RoleView| role_before(a, b)
}

impl Arrange for RoleCandidate {
    open spec fn before() -> spec_fn(RoleView, RoleView) -> bool {
        by_score()
    }

    fn comes_before(&self, other: &Self) -> (r: bool) {
        other.score.is_below(&self.score) || (!self.score.is_below(&other.score) && is_before(
            self.label.as_str(),
            other.label.as_str(),
        ))
    }
}

fn find_seen<F: Fn(&ContainerSchema, &FieldInfo) -> bool>(
    schemas: &Vec<ContainerSchema>,
    accept: F,
    Ghost(p): Ghost<spec_fn(SchemaView, FieldView) -> bool>,
) -> (out: Vec<Seen>)
    requires
        forall|s: &ContainerSchema, f: &FieldInfo| call_requires(accept, (s, f)),
        forall|s: &ContainerSchema, f: &FieldInfo, r: bool|
            call_ensures(accept, (s, f), r) ==> r == p(s@, f@),
    ensures
        out.deep_view() == all_seen(schemas.deep_view(), p),
{
    let ghost all = schemas.deep_view();
    let mut out: Vec<Seen> = Vec::new();
    let mut i: usize = 0;
    assert(out.deep_view() =~= Seq::<SeenView>::empty());
    while i < schemas.len()
        invariant
            forall|s: &ContainerSchema, f: &FieldInfo| call_requires(accept, (s, f)),
            forall|s: &ContainerSchema, f: &FieldInfo, r: bool|
                call_ensures(accept, (s, f), r) ==> r == p(s@, f@),
            all == schemas.deep_view(),
            i <= schemas@.len(),
            out.deep_view() == all_seen(all.take(i as int), p),
        decreases schemas.len() - i,
    {
        let schema = &schemas[i];
        let ghost before = out.deep_view();
        let ghost fields = schema.fields.deep_view();
        let mut k: usize = 0;
        assert(before + seen_among(schema@, fields.take(0), p) =~= before);
        while k < schema.fields.len()
            invariant
                forall|s: &ContainerSchema, f: &FieldInfo| call_requires(accept, (s, f)),
                forall|s: &ContainerSchema, f: &FieldInfo, r: bool|
                    call_ensures(accept, (s, f), r) ==> r == p(s@, f@),
                k <= schema.fields@.len(),
                fields == schema.fields.deep_view(),
                out.deep_view() == before + seen_among(schema@, fields.take(k as int), p),
            decreases schema.fields.len() - k,
        {
            let field = &schema.fields[k];
            assert(fields.take(k + 1).drop_last() =~= fields.take(k as int));
            assert(fields.take(k + 1).last() == field@);
            if accept(schema, field) {
                let ghost here = out.deep_view();
                let seen = Seen {
                    id: to_lower(field.name.as_str()),
                    label: field.name.clone(),
                    container: schema.path(),
                    distinct: field.distinct,
                };
                let ghost view = seen@;
                out.push(seen);
                assert(out.deep_view() =~= here.push(view));
                assert(out.deep_view() =~= before + seen_among(schema@, fields.take(k + 1), p));
            }
            k = k + 1;
        }
        assert(fields.take(k as int) =~= fields);
        assert(all.take(i + 1).drop_last() =~= all.take(i as int));
        assert(all.take(i + 1).last() == schema@);
        i = i + 1;
    }
    assert(all.take(i as int) =~= all);
    out
}

proof fn first_spelling_at(seen: Seq<SeenView>, id: Text, at: int)
    requires
        0 <= at < seen.len(),
        seen[at].id == id,
        forall|j: int| 0 <= j < at ==> (#[trigger] seen[j]).id != id,
    ensures
        first_spelling(seen, id) == seen[at].label,
    decreases at,
{
    if at > 0 {
        assert(seen[0].id != id);
        let rest = seen.drop_first();
        assert forall|j: int| 0 <= j < at - 1 implies (#[trigger] rest[j]).id != id by {
            assert(rest[j] == seen[j + 1]);
        }
        first_spelling_at(rest, id, at - 1);
    }
}

proof fn no_spelling(seen: Seq<SeenView>, id: Text)
    requires
        forall|j: int| 0 <= j < seen.len() ==> (#[trigger] seen[j]).id != id,
    ensures
        first_spelling(seen, id) == Seq::<char>::empty(),
    decreases seen.len(),
{
    if seen.len() > 0 {
        assert(seen[0].id != id);
        let rest = seen.drop_first();
        assert forall|j: int| 0 <= j < rest.len() implies (#[trigger] rest[j]).id != id by {
            assert(rest[j] == seen[j + 1]);
        }
        no_spelling(rest, id);
    }
}

fn role_for<F: Fn(usize, usize) -> String>(
    seen: &Vec<Seen>,
    id: &str,
    note: &F,
    Ghost(p): Ghost<spec_fn(nat, nat) -> Text>,
) -> (out: RoleCandidate)
    requires
        forall|c: usize, d: usize| call_requires(*note, (c, d)),
        forall|c: usize, d: usize, r: String|
            call_ensures(*note, (c, d), r) ==> r@ == p(c as nat, d as nat),
    ensures
        out@ == role_of(seen.deep_view(), id@, p),
{
    let ghost all = seen.deep_view();
    let mut label = String::new();
    let mut found = false;
    let mut containers: Vec<String> = Vec::new();
    let mut most: usize = 0;
    let mut i: usize = 0;
    assert(containers.deep_view() =~= Seq::<Text>::empty());
    assert(label@ =~= Seq::<char>::empty());
    while i < seen.len()
        invariant
            all == seen.deep_view(),
            i <= seen@.len(),
            containers.deep_view() == containers_with(all.take(i as int), id@),
            most == most_distinct(all.take(i as int), id@),
            found ==> label@ == first_spelling(all, id@),
            !found ==> label@ == Seq::<char>::empty() && forall|j: int|
                0 <= j < i ==> (#[trigger] all[j]).id != id@,
        decreases seen.len() - i,
    {
        let one = &seen[i];
        assert(all.take(i + 1).drop_last() =~= all.take(i as int));
        assert(all.take(i + 1).last() == one@);
        assert(all[i as int] == one@);
        if same(one.id.as_str(), id) {
            if !found {
                proof {
                    first_spelling_at(all, id@, i as int);
                }
                label = one.label.clone();
                found = true;
            }
            let ghost before = containers.deep_view();
            containers.push(one.container.clone());
            assert(containers.deep_view() =~= before.push(one.container@));
            if one.distinct > most {
                most = one.distinct;
            }
        }
        i = i + 1;
    }
    assert(all.take(i as int) =~= all);
    proof {
        if !found {
            no_spelling(all, id@);
        }
    }
    let n = containers.len();
    assert(containers.deep_view().len() == n);
    RoleCandidate {
        id: id.to_owned(),
        label,
        note: note(n, most),
        score: Single::of(n),
        containers,
    }
}

fn gather_roles<F: Fn(usize, usize) -> String>(
    seen: &Vec<Seen>,
    note: F,
    Ghost(p): Ghost<spec_fn(nat, nat) -> Text>,
) -> (out: Vec<RoleCandidate>)
    requires
        forall|c: usize, d: usize| call_requires(note, (c, d)),
        forall|c: usize, d: usize, r: String|
            call_ensures(note, (c, d), r) ==> r@ == p(c as nat, d as nat),
    ensures
        out.deep_view() == roles_of(seen.deep_view(), p),
{
    let ghost all = seen.deep_view();
    let mut listed: Vec<String> = Vec::new();
    let mut i: usize = 0;
    while i < seen.len()
        invariant
            all == seen.deep_view(),
            i <= seen@.len(),
            listed@.len() == i,
            forall|j: int| 0 <= j < i ==> (#[trigger] listed@[j])@ == all[j].id,
        decreases seen.len() - i,
    {
        listed.push(seen[i].id.clone());
        i = i + 1;
    }
    assert(listed.deep_view() =~= ids_of(all));
    let ids = distinct_of(&listed);
    let mut out: Vec<RoleCandidate> = Vec::new();
    let mut k: usize = 0;
    while k < ids.len()
        invariant
            forall|c: usize, d: usize| call_requires(note, (c, d)),
            forall|c: usize, d: usize, r: String|
                call_ensures(note, (c, d), r) ==> r@ == p(c as nat, d as nat),
            all == seen.deep_view(),
            k <= ids@.len(),
            out@.len() == k,
            forall|j: int| 0 <= j < k ==> (#[trigger] out@[j])@ == role_of(all, ids@[j]@, p),
        decreases ids.len() - k,
    {
        out.push(role_for(seen, ids[k].as_str(), &note, Ghost(p)));
        k = k + 1;
    }
    assert(out.deep_view() =~= roles_of(all, p)) by {
        assert(ids.deep_view().len() == ids@.len());
        assert forall|j: int| 0 <= j < out@.len() implies out.deep_view()[j]
            == #[trigger] roles_of(all, p)[j] by {
            assert(out@[j]@ == role_of(all, ids@[j]@, p));
            assert(ids.deep_view()[j] == ids@[j]@);
        }
    }
    out
}

/// How many containers carry a field, in words.
pub open spec fn containers_note(n: nat) -> Text {
    decimal(n) + " container(s)"@
}

fn with_containers(front: &str, n: usize) -> (out: String)
    ensures
        out@ == front@ + containers_note(n as nat),
{
    let digits = count(n);
    let note = concat(digits.as_str(), " container(s)");
    concat(front, note.as_str())
}

/// What is noted of a field that occurs in `n` containers.
pub open spec fn scalar_note() -> spec_fn(nat, nat) -> Text {
    |n: nat, most: nat| "in "@ + containers_note(n)
}

/// The fields that have a value one could compare against.
pub open spec fn accept_scalar() -> spec_fn(SchemaView, FieldView) -> bool {
    |schema: SchemaView, field: FieldView| is_offered(field)
}

/// Every scalar field in the account, for pickers that need the full list
/// rather than a ranked subset: an error flag can live on any field, however
/// unremarkable, so this deliberately does no filtering beyond "has a value
/// you could compare against".
pub fn scalar_fields(schemas: &Vec<ContainerSchema>) -> (out: Vec<RoleCandidate>)
    ensures
        out.deep_view() == roles_of(all_seen(schemas.deep_view(), accept_scalar()), scalar_note()),
{
    let accept = |schema: &ContainerSchema, field: &FieldInfo| -> (r: bool)
        ensures
            r == is_offered(field@),
        { offered(field) };
    let note = |n: usize, most: usize| -> (r: String)
        ensures
            r@ == "in "@ + containers_note(n as nat),
        { with_containers("in ", n) };
    let seen = find_seen(schemas, accept, Ghost(accept_scalar()));
    gather_roles(&seen, note, Ghost(scalar_note()))
}

/// Whether at least three in five of the values look like points in time.
pub open spec fn mostly_times(values: Set<Text>) -> bool {
    values.len() > 0 && 5 * values.filter(|v: Text| looks_like_time(v)).len() >= 3 * values.len()
}

fn are_mostly_times(values: &TextSet) -> (r: bool)
    ensures
        r == mostly_times(values@),
{
    let test = |v: &str| -> (r: bool)
        ensures
            r == looks_like_time(v@),
        { time_shaped(v) };
    let hits = values.count_where(test, Ghost(|v: Text| looks_like_time(v)));
    let n = values.len();
    n > 0 && 5 * (hits as u128) >= 3 * (n as u128)
}

/// The fields of the documents' own that tell when something happened.
pub open spec fn accept_time() -> spec_fn(SchemaView, FieldView) -> bool {
    |schema: SchemaView, field: FieldView|
        !is_system_field(field.name) && mostly_times(field.values)
}

/// What is noted of a time field in `n` containers.
pub open spec fn time_note() -> spec_fn(nat, nat) -> Text {
    |n: nat, most: nat| "timestamp-shaped, in "@ + containers_note(n)
}

/// The time that the store itself records, which every document has.
pub open spec fn write_time(schemas: Seq<SchemaView>) -> RoleView {
    RoleView {
        id: "_ts"@,
        label: "_ts"@,
        containers: paths_of(schemas),
        note: "Cosmos write time — always present, but not your domain timestamp"@,
        score: of_ratio(1, 2),
    }
}

/// The candidates for the time field, best first.
pub open spec fn times_of(schemas: Seq<SchemaView>) -> Seq<RoleView> {
    arranged(
        roles_of(all_seen(schemas, accept_time()), time_note()).push(write_time(schemas)),
        by_score(),
    )
}

/// The candidates for the time field. The write time always works, but it
/// records when the document was written, which is not always when the step
/// happened: it is worth less than any field of the documents' own.
pub fn time_candidates(schemas: &Vec<ContainerSchema>) -> (out: Vec<RoleCandidate>)
    ensures
        out.deep_view() == times_of(schemas.deep_view()),
{
    let accept = |schema: &ContainerSchema, field: &FieldInfo| -> (r: bool)
        ensures
            r == (!is_system_field(field@.name) && mostly_times(field@.values)),
        { !system_field(field.name.as_str()) && are_mostly_times(&field.values) };
    let note = |n: usize, most: usize| -> (r: String)
        ensures
            r@ == "timestamp-shaped, in "@ + containers_note(n as nat),
        { with_containers("timestamp-shaped, in ", n) };
    let seen = find_seen(schemas, accept, Ghost(accept_time()));
    let mut out = gather_roles(&seen, note, Ghost(time_note()));
    let ghost before = out.deep_view();
    let last = RoleCandidate {
        id: "_ts".to_owned(),
        label: "_ts".to_owned(),
        containers: container_paths(schemas),
        note: "Cosmos write time — always present, but not your domain timestamp".to_owned(),
        score: Single::ratio(1, 2),
    };
    assert(last@ == write_time(schemas.deep_view()));
    out.push(last);
    assert(out.deep_view() =~= before.push(write_time(schemas.deep_view())));
    arrange(out)
}

/// Whether a field's values name what happened: it holds texts, in at least
/// half of the documents, and they are a small vocabulary rather than free
/// text or identifiers. Repetition is only asked for once the sample is big
/// enough to expect it: in five documents even a real enumeration can come out
/// all-distinct.
pub open spec fn names_steps(schema: SchemaView, field: FieldView) -> bool {
    &&& !is_system_field(field.name)
    &&& field.types.contains("string"@)
    &&& !below(field.fill(schema.sampled_docs), of_ratio(1, 2))
    &&& 2 <= field.distinct <= 25
    &&& field.seen_in >= 8 ==> !below(of_ratio(8, 10), field.distinct_ratio())
    &&& field.values.filter(|v: Text| byte_length(v) > 60).len() == 0
    &&& !mostly_ids(field.values)
}

fn may_name_steps(schema: &ContainerSchema, field: &FieldInfo) -> (r: bool)
    ensures
        r == names_steps(schema@, field@),
{
    if system_field(field.name.as_str()) || !is_listed(&field.types, "string") {
        return false;
    }
    if field.fill(schema.sampled_docs).is_below(&Single::ratio(1, 2)) {
        return false;
    }
    if field.distinct < 2 || field.distinct > 25 {
        return false;
    }
    if field.seen_in >= 8 && Single::ratio(8, 10).is_below(&field.distinct_ratio()) {
        return false;
    }
    let long = |v: &str| -> (r: bool)
        ensures
            r == (byte_length(v@) > 60),
        { byte_len(v) > 60 };
    if field.values.count_where(long, Ghost(|v: Text| byte_length(v) > 60)) > 0 {
        return false;
    }
    !are_mostly_ids(&field.values)
}

/// The fields that name what happened.
pub open spec fn accept_label() -> spec_fn(SchemaView, FieldView) -> bool {
    |schema: SchemaView, field: FieldView| names_steps(schema, field)
}

/// What is noted of a label field in `n` containers with up to `most` values.
pub open spec fn label_note() -> spec_fn(nat, nat) -> Text {
    |n: nat, most: nat| decimal(most) + " distinct values, in "@ + containers_note(n)
}

/// The candidates for the step label, best first.
pub open spec fn labels_of(schemas: Seq<SchemaView>) -> Seq<RoleView> {
    arranged(roles_of(all_seen(schemas, accept_label()), label_note()), by_score())
}

/// The candidates for the step label.
pub fn label_candidates(schemas: &Vec<ContainerSchema>) -> (out: Vec<RoleCandidate>)
    ensures
        out.deep_view() == labels_of(schemas.deep_view()),
{
    let accept = |schema: &ContainerSchema, field: &FieldInfo| -> (r: bool)
        ensures
            r == names_steps(schema@, field@),
        { may_name_steps(schema, field) };
    let note = |n: usize, most: usize| -> (r: String)
        ensures
            r@ == decimal(most as nat) + " distinct values, in "@ + containers_note(n as nat),
        {
            let digits = count(most);
            let front = concat(digits.as_str(), " distinct values, in ");
            with_containers(front.as_str(), n)
        };
    let seen = find_seen(schemas, accept, Ghost(accept_label()));
    let out = gather_roles(&seen, note, Ghost(label_note()));
    arrange(out)
}

// ── Values of a field ────────────────────────────────────────────────────

/// The values of the fields among `fields` whose lowercased path is `id`.
pub open spec fn values_among(fields: Seq<FieldView>, id: Text) -> Set<Text>
    decreases fields.len(),
{
    if fields.len() == 0 {
        Set::empty()
    } else {
        let front = values_among(fields.drop_last(), id);
        if lowered(fields.last().name) == id {
            front.union(fields.last().values)
        } else {
            front
        }
    }
}

/// The values of the fields of all schemas whose lowercased path is `id`.
pub open spec fn values_named(schemas: Seq<SchemaView>, id: Text) -> Set<Text>
    decreases schemas.len(),
{
    if schemas.len() == 0 {
        Set::empty()
    } else {
        values_named(schemas.drop_last(), id).union(values_among(schemas.last().fields, id))
    }
}

/// Every distinct value sampled for a field, across all containers, in
/// ascending order.
///
/// When a field drives the lane axis, this is the set of stages we know exist,
/// and therefore the only stages that can be reported as *not* reached. It is
/// exactly as complete as the sample was.
pub fn field_values(schemas: &Vec<ContainerSchema>, lower_path: &str) -> (out: Vec<String>)
    ensures
        ascending(out.deep_view()),
        out.deep_view().to_set() == (if lower_path@.len() == 0 {
            Set::empty()
        } else {
            values_named(schemas.deep_view(), lower_path@)
        }),
{
    let ghost all = schemas.deep_view();
    let mut found = TextSet::new();
    if lower_path.is_empty() {
        let none: Vec<String> = Vec::new();
        assert(none.deep_view().to_set() =~= Set::<Text>::empty());
        return none;
    }
    let mut i: usize = 0;
    while i < schemas.len()
        invariant
            all == schemas.deep_view(),
            i <= schemas@.len(),
            found@ == values_named(all.take(i as int), lower_path@),
        decreases schemas.len() - i,
    {
        let schema = &schemas[i];
        let ghost before = found@;
        let ghost fields = schema.fields.deep_view();
        let mut k: usize = 0;
        assert(before.union(values_among(fields.take(0), lower_path@)) =~= before);
        while k < schema.fields.len()
            invariant
                k <= schema.fields@.len(),
                fields == schema.fields.deep_view(),
                found@ == before.union(values_among(fields.take(k as int), lower_path@)),
            decreases schema.fields.len() - k,
        {
            let field = &schema.fields[k];
            assert(fields.take(k + 1).drop_last() =~= fields.take(k as int));
            assert(fields.take(k + 1).last() == field@);
            let id = to_lower(field.name.as_str());
            if same(id.as_str(), lower_path) {
                found.take_in(&field.values);
                assert(found@ =~= before.union(values_among(fields.take(k + 1), lower_path@)));
            }
            k = k + 1;
        }
        assert(fields.take(k as int) =~= fields);
        assert(all.take(i + 1).drop_last() =~= all.take(i as int));
        assert(all.take(i + 1).last() == schema@);
        i = i + 1;
    }
    assert(all.take(i as int) =~= all);
    copies(found.items())
}

// ── Everything at once ───────────────────────────────────────────────────

/// What the sampled documents of an account suggest.
#[derive(Debug, PartialEq)]
pub struct Insights {
    pub containers: Vec<String>,
    pub keys: Vec<KeyCandidate>,
    pub times: Vec<RoleCandidate>,
    pub labels: Vec<RoleCandidate>,
}

impl Default for Insights {
    fn default() -> (out: Self)
        ensures
            out.containers@.len() == 0,
            out.keys@.len() == 0,
            out.times@.len() == 0,
            out.labels@.len() == 0,
    {
        Insights {
            containers: Vec::new(),
            keys: Vec::new(),
            times: Vec::new(),
            labels: Vec::new(),
        }
    }
}

/// Works out what makes the containers of an account traceable.
pub fn analyze(schemas: &Vec<ContainerSchema>) -> (out: Insights)
    ensures
        out.containers.deep_view() == paths_of(schemas.deep_view()),
        out.keys.deep_view() == keys_of(schemas.deep_view()),
        out.times.deep_view() == times_of(schemas.deep_view()),
        out.labels.deep_view() == labels_of(schemas.deep_view()),
{
    Insights {
        containers: container_paths(schemas),
        keys: key_candidates(schemas),
        times: time_candidates(schemas),
        labels: label_candidates(schemas),
    }
}

// ── What holds of every account ──────────────────────────────────────────

proof fn seen_ids_have_containers(seen: Seq<SeenView>, id: Text)
    ensures
        containers_with(seen, id).len() > 0 <==> ids_of(seen).contains(id),
    decreases seen.len(),
{
    if seen.len() > 0 {
        let front = seen.drop_last();
        seen_ids_have_containers(front, id);
        if ids_of(front).contains(id) {
            let k = choose|k: int| 0 <= k < front.len() && ids_of(front)[k] == id;
            assert(ids_of(seen)[k] == id);
        }
        if seen.last().id == id {
            assert(ids_of(seen)[seen.len() - 1] == id);
        }
        if ids_of(seen).contains(id) {
            let k = choose|k: int| 0 <= k < seen.len() && ids_of(seen)[k] == id;
            if k < front.len() {
                assert(ids_of(front)[k] == id);
            }
        }
    }
}

/// The write time is always offered as a time field, and always last: never
/// ahead of a timestamp of the documents' own.
pub proof fn write_time_comes_last(schemas: Seq<SchemaView>)
    ensures
        times_of(schemas).len() > 0,
        times_of(schemas).last() == write_time(schemas),
        forall|i: int|
            0 <= i < times_of(schemas).len() - 1 ==> below(
                write_time(schemas).score,
                (#[trigger] times_of(schemas)[i]).score,
            ),
        times_of(schemas) == arranged(
            roles_of(all_seen(schemas, accept_time()), time_note()),
            by_score(),
        ).push(write_time(schemas)),
{
    let seen = all_seen(schemas, accept_time());
    let own = roles_of(seen, time_note());
    let last = write_time(schemas);
    let sorted = arranged(own, by_score());
    assert(own.push(last).drop_last() =~= own);
    arranged_is_permutation(own, by_score());
    same_items(sorted, own);
    distinct_is_ascending(ids_of(seen));
    assert forall|i: int| 0 <= i < sorted.len() implies below(
        last.score,
        (#[trigger] sorted[i]).score,
    ) && !below(sorted[i].score, last.score) by {
        assert(sorted.contains(sorted[i]));
        let k = choose|k: int| 0 <= k < own.len() && own[k] == sorted[i];
        let ids = distinct(ids_of(seen));
        assert(ids.contains(ids[k]));
        seen_ids_have_containers(seen, ids[k]);
        a_half_is_less_than_one(containers_with(seen, ids[k]).len());
    }
    if sorted.len() > 0 {
        assert(below(last.score, sorted[sorted.len() - 1].score));
    }
    assert(times_of(schemas) == sorted.push(last));
}

/// Whether some container has a field of that name that tells when something
/// happened.
pub open spec fn has_time_field(schemas: Seq<SchemaView>, name: Text) -> bool {
    exists|i: int, k: int|
        0 <= i < schemas.len() && 0 <= k < schemas[i].fields.len() && (
        #[trigger] schemas[i].fields[k]).name == name && accept_time()(
            schemas[i],
            schemas[i].fields[k],
        )
}

proof fn times_seen_among(schema: SchemaView, fields: Seq<FieldView>)
    ensures
        forall|i: int|
            0 <= i < seen_among(schema, fields, accept_time()).len() ==> {
                let one = #[trigger] seen_among(schema, fields, accept_time())[i];
                &&& one.id == lowered(one.label)
                &&& !is_system_field(one.label)
                &&& exists|k: int|
                    0 <= k < fields.len() && (#[trigger] fields[k]).name == one.label
                        && accept_time()(schema, fields[k])
            },
    decreases fields.len(),
{
    let seen = seen_among(schema, fields, accept_time());
    if fields.len() > 0 {
        let front = fields.drop_last();
        let early = seen_among(schema, front, accept_time());
        times_seen_among(schema, front);
        assert forall|i: int| 0 <= i < seen.len() implies {
            let one = #[trigger] seen[i];
            &&& one.id == lowered(one.label)
            &&& !is_system_field(one.label)
            &&& exists|k: int|
                0 <= k < fields.len() && (#[trigger] fields[k]).name == one.label && accept_time()(
                    schema,
                    fields[k],
                )
        } by {
            if i < early.len() {
                assert(seen[i] == early[i]);
                let k = choose|k: int|
                    0 <= k < front.len() && (#[trigger] front[k]).name == early[i].label
                        && accept_time()(schema, front[k]);
                assert(fields[k].name == seen[i].label);
            } else {
                assert(fields[fields.len() - 1].name == seen[i].label);
            }
        }
    }
}

proof fn times_seen_are_fields(schemas: Seq<SchemaView>)
    ensures
        forall|i: int|
            0 <= i < all_seen(schemas, accept_time()).len() ==> {
                let one = #[trigger] all_seen(schemas, accept_time())[i];
                &&& one.id == lowered(one.label)
                &&& !is_system_field(one.label)
                &&& has_time_field(schemas, one.label)
            },
    decreases schemas.len(),
{
    let seen = all_seen(schemas, accept_time());
    if schemas.len() > 0 {
        let front = schemas.drop_last();
        let early = all_seen(front, accept_time());
        let own = schemas.last().fields;
        let late = seen_among(schemas.last(), own, accept_time());
        times_seen_are_fields(front);
        times_seen_among(schemas.last(), own);
        assert forall|i: int| 0 <= i < seen.len() implies {
            let one = #[trigger] seen[i];
            &&& one.id == lowered(one.label)
            &&& !is_system_field(one.label)
            &&& has_time_field(schemas, one.label)
        } by {
            let name = seen[i].label;
            if i < early.len() {
                assert(seen[i] == early[i]);
                let (m, k) = choose|m: int, k: int|
                    0 <= m < front.len() && 0 <= k < front[m].fields.len() && (
                    #[trigger] front[m].fields[k]).name == name && accept_time()(
                        front[m],
                        front[m].fields[k],
                    );
                assert(schemas[m].fields[k].name == name);
            } else {
                assert(seen[i] == late[i - early.len()]);
                let k = choose|k: int|
                    0 <= k < own.len() && (#[trigger] own[k]).name == name && accept_time()(
                        schemas.last(),
                        own[k],
                    );
                assert(schemas[schemas.len() - 1].fields[k].name == name);
            }
        }
    }
}

pub(crate) proof fn first_spelling_is_seen(seen: Seq<SeenView>, id: Text)
    requires
        ids_of(seen).contains(id),
    ensures
        exists|i: int|
            0 <= i < seen.len() && (#[trigger] seen[i]).id == id && seen[i].label
                == first_spelling(seen, id),
    decreases seen.len(),
{
    let m = choose|m: int| 0 <= m < seen.len() && ids_of(seen)[m] == id;
    assert(seen[m].id == id);
    if seen[0].id != id {
        let rest = seen.drop_first();
        assert(ids_of(rest)[m - 1] == id);
        first_spelling_is_seen(rest, id);
        let k = choose|k: int|
            0 <= k < rest.len() && (#[trigger] rest[k]).id == id && rest[k].label
                == first_spelling(rest, id);
        assert(seen[k + 1] == rest[k]);
    }
}

/// Every candidate for the time field but the last is a field of the documents'
/// own: it is spelled as in some container that has it, and it is none of those
/// that the store adds.
pub proof fn times_are_the_documents_own(schemas: Seq<SchemaView>)
    ensures
        forall|i: int|
            0 <= i < times_of(schemas).len() - 1 ==> {
                let role = #[trigger] times_of(schemas)[i];
                &&& role.id == lowered(role.label)
                &&& !is_system_field(role.label)
                &&& has_time_field(schemas, role.label)
            },
{
    let seen = all_seen(schemas, accept_time());
    let own = roles_of(seen, time_note());
    let times = times_of(schemas);
    let sorted = arranged(own, by_score());
    let ids = distinct(ids_of(seen));
    write_time_comes_last(schemas);
    times_seen_are_fields(schemas);
    distinct_is_ascending(ids_of(seen));
    arranged_is_permutation(own, by_score());
    same_items(sorted, own);
    assert forall|i: int| 0 <= i < times.len() - 1 implies {
        let role = #[trigger] times[i];
        &&& role.id == lowered(role.label)
        &&& !is_system_field(role.label)
        &&& has_time_field(schemas, role.label)
    } by {
        assert(times[i] == sorted[i]);
        assert(sorted.contains(sorted[i]));
        let k = choose|k: int| 0 <= k < own.len() && own[k] == sorted[i];
        assert(ids.contains(ids[k]));
        first_spelling_is_seen(seen, ids[k]);
        let m = choose|m: int|
            0 <= m < seen.len() && (#[trigger] seen[m]).id == ids[k] && seen[m].label
                == first_spelling(seen, ids[k]);
        assert(seen[m].id == lowered(seen[m].label));
    }
}

/// The write time is offered once. Fields go by their lowercased paths, so this
/// holds unless the documents have a time of their own that is spelled like
/// `_ts` in another case.
pub proof fn write_time_is_offered_once(schemas: Seq<SchemaView>)
    requires
        forall|name: Text| #[trigger]
            has_time_field(schemas, name) ==> lowered(name) != "_ts"@,
    ensures
        times_of(schemas).last().id == "_ts"@,
        forall|i: int|
            0 <= i < times_of(schemas).len() - 1 ==> (#[trigger] times_of(schemas)[i]).id
                != "_ts"@,
{
    write_time_comes_last(schemas);
    times_are_the_documents_own(schemas);
}

/// The candidates for the time field and for the step label come best first:
/// none stands behind one with a lower score, nor, among those with the same
/// score, behind one whose name is later in the alphabet.
pub proof fn roles_come_best_first(schemas: Seq<SchemaView>)
    ensures
        in_order(times_of(schemas), by_score()),
        in_order(labels_of(schemas), by_score()),
{
    let before = by_score();
    assert forall|a: RoleView, b: RoleView| #[trigger] before(a, b) implies !before(b, a) by {
        below_is_an_order(a.score, b.score, a.score);
        names_in_turn(a.label, b.label, a.label);
    }
    assert forall|a: RoleView, b: RoleView, c: RoleView|
        !#[trigger] before(a, b) && !#[trigger] before(b, c) implies !before(a, c) by {
        below_is_an_order(a.score, b.score, c.score);
        below_is_an_order(c.score, b.score, a.score);
        below_is_an_order(b.score, a.score, c.score);
        below_is_an_order(b.score, c.score, a.score);
        below_is_an_order(a.score, c.score, b.score);
        below_is_an_order(c.score, a.score, b.score);
        names_in_turn(a.label, b.label, c.label);
    }
    assert(is_order(before));
    arranged_in_order(
        roles_of(all_seen(schemas, accept_time()), time_note()).push(write_time(schemas)),
        before,
    );
    arranged_in_order(roles_of(all_seen(schemas, accept_label()), label_note()), before);
}

} // verus!
