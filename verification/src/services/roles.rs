//! What the candidates for the time field, the step label and the error flag
//! promise, said of the sampled fields themselves.

use crate::order::{
    arranged, arranged_is_permutation, distinct, distinct_is_ascending, same_items,
};
use crate::services::cosmos::{FieldView, SchemaView};
use crate::services::discover::{
    accept_label, accept_scalar, accept_time, all_seen, by_score, containers_with, ids_of,
    label_note, labels_of, most_distinct, names_steps, role_of, roles_of, scalar_note, seen_among,
    seen_in, time_note, times_of, values_among, values_named, write_time, write_time_comes_last,
    RoleView, SeenView,
};
use crate::services::linking::{can_carry, field_at, system_fields_are_these, Place};
use crate::services::shapes::{looks_like_id, looks_like_time};
use crate::services::time::{epoch_millis, millis_of};
use crate::single::{below, of_count, of_ratio};
use crate::text::{byte_length, decimal, i64_value, lowered, Text};
use crate::value::ValueView;
use vstd::prelude::*;

verus! {

// ── Which values are points in time ──────────────────────────────────────

/// Whether `c` is one of the ten decimal digits.
pub open spec fn decimal_digit(c: char) -> bool {
    '0' <= c <= '9'
}

/// Whether `v` starts with a year and a month, as in `2025-12-`, and goes on to
/// ten bytes or more.
pub open spec fn starts_with_month(v: Text) -> bool {
    &&& v.len() >= 8 && byte_length(v) >= 10
    &&& forall|i: int|
        0 <= i < 8 ==> if i == 4 || i == 7 {
            #[trigger] v[i] == '-'
        } else {
            decimal_digit(v[i])
        }
}

/// Whether `n` counts the seconds or the milliseconds from 1970 to a time
/// between 2001 and 2096.
pub open spec fn counts_to_a_time(n: int) -> bool {
    ||| 1_000_000_000 <= n <= 4_000_000_000
    ||| 1_000_000_000_000 <= n <= 4_000_000_000_000
}

/// Whether `v` is a point in time: a date to begin with, or a count.
pub open spec fn is_point_in_time(v: Text) -> bool {
    ||| starts_with_month(v)
    ||| i64_value(v) is Some && counts_to_a_time(i64_value(v)->0 as int)
}

/// A value looks like a time exactly when it begins with a date, or counts
/// seconds or milliseconds to a plausible time.
pub proof fn times_are_dates_or_counts(v: Text)
    ensures
        looks_like_time(v) <==> is_point_in_time(v),
{
    if starts_with_month(v) {
        assert(decimal_digit(v[0]) && decimal_digit(v[1]) && decimal_digit(v[2]) && decimal_digit(
            v[3],
        ));
        assert(v[4] == '-' && v[7] == '-');
        assert(decimal_digit(v[5]) && decimal_digit(v[6]));
    }
}

/// A count is read as the time that it counts to: from seconds in thousandths,
/// from milliseconds as it is. A number, and a text that writes it out, are read
/// alike. What is read so looks like a time, and no other count is read.
pub proof fn counts_are_read_as_times(n: i64, v: Text, written: Text)
    requires
        i64_value(v) == Some(n),
    ensures
        1_000_000_000 <= n <= 4_000_000_000 ==> epoch_millis(n as int) == Some((n * 1000) as i64),
        1_000_000_000_000 <= n <= 4_000_000_000_000 ==> epoch_millis(n as int) == Some(n),
        !counts_to_a_time(n as int) ==> epoch_millis(n as int) is None,
        epoch_millis(n as int) is Some ==> looks_like_time(v),
        millis_of(ValueView::Number(written, Some(n))) == epoch_millis(n as int),
        millis_of(ValueView::Number(written, None)) is None,
{
    times_are_dates_or_counts(v);
}

/// Nothing but texts and numbers tells a time.
pub proof fn only_scalars_tell_times(v: ValueView)
    requires
        !(v is Text),
        !(v is Number),
    ensures
        millis_of(v) is None,
{
}

// ── What a list of candidates holds ──────────────────────────────────────

/// Whether the field at `p` is there, and `accept` takes it.
pub open spec fn accepts(
    schemas: Seq<SchemaView>,
    accept: spec_fn(SchemaView, FieldView) -> bool,
    p: Place,
) -> bool {
    &&& 0 <= p.schema < schemas.len()
    &&& 0 <= p.field < schemas[p.schema].fields.len()
    &&& accept(schemas[p.schema], field_at(schemas, p))
}

/// Whether `role` stands for the field at `p`: it has the field's path in small
/// letters, and is found in its container.
pub open spec fn offers(schemas: Seq<SchemaView>, role: RoleView, p: Place) -> bool {
    let schema = schemas[p.schema];
    &&& role.id == lowered(field_at(schemas, p).name)
    &&& role.containers.contains(schema.database + "/"@ + schema.container)
}

/// Whether one of `roles` stands for the field at `p`.
pub open spec fn is_among(schemas: Seq<SchemaView>, roles: Seq<RoleView>, p: Place) -> bool {
    exists|r: int| 0 <= r < roles.len() && offers(schemas, #[trigger] roles[r], p)
}

/// Whether `role` stands for a field that `accept` takes, in that container.
pub open spec fn found_there(
    schemas: Seq<SchemaView>,
    accept: spec_fn(SchemaView, FieldView) -> bool,
    role: RoleView,
    container: Text,
) -> bool {
    exists|p: Place| #[trigger]
        accepts(schemas, accept, p) && offers(schemas, role, p) && container
            == schemas[p.schema].database + "/"@ + schemas[p.schema].container
}

/// Whether `role` is spelled as one of the fields that it stands for, which
/// `accept` takes.
pub open spec fn spelled_so(
    schemas: Seq<SchemaView>,
    accept: spec_fn(SchemaView, FieldView) -> bool,
    role: RoleView,
) -> bool {
    exists|p: Place| #[trigger]
        accepts(schemas, accept, p) && offers(schemas, role, p) && field_at(schemas, p).name
            == role.label
}

/// Whether each container of `role` has a field that `accept` takes, `role` is
/// spelled as one of them, and it is worth the number of its containers.
pub open spec fn is_borne_out(
    schemas: Seq<SchemaView>,
    accept: spec_fn(SchemaView, FieldView) -> bool,
    role: RoleView,
) -> bool {
    &&& role.containers.len() > 0
    &&& role.score == of_count(role.containers.len())
    &&& spelled_so(schemas, accept, role)
    &&& forall|c: int|
        0 <= c < role.containers.len() ==> found_there(
            schemas,
            accept,
            role,
            #[trigger] role.containers[c],
        )
}

/// Whether `roles` holds exactly the fields that `accept` takes: each such field
/// stands there under its path in small letters, no path stands there twice, and
/// every candidate is borne out by such fields.
pub open spec fn lists_exactly(
    schemas: Seq<SchemaView>,
    accept: spec_fn(SchemaView, FieldView) -> bool,
    roles: Seq<RoleView>,
) -> bool {
    &&& forall|p: Place| #[trigger] accepts(schemas, accept, p) ==> is_among(schemas, roles, p)
    &&& forall|r: int|
        0 <= r < roles.len() ==> is_borne_out(schemas, accept, #[trigger] roles[r])
    &&& forall|r: int, q: int|
        0 <= r < q < roles.len() ==> (#[trigger] roles[r]).id != (#[trigger] roles[q]).id
}

spec fn from_field(
    schema: SchemaView,
    fields: Seq<FieldView>,
    accept: spec_fn(SchemaView, FieldView) -> bool,
    one: SeenView,
) -> bool {
    exists|k: int|
        0 <= k < fields.len() && accept(schema, #[trigger] fields[k]) && one == seen_in(
            schema,
            fields[k],
        )
}

proof fn seen_from_fields(
    schema: SchemaView,
    fields: Seq<FieldView>,
    accept: spec_fn(SchemaView, FieldView) -> bool,
    one: SeenView,
)
    ensures
        seen_among(schema, fields, accept).contains(one) <==> from_field(
            schema,
            fields,
            accept,
            one,
        ),
    decreases fields.len(),
{
    let all = seen_among(schema, fields, accept);
    if fields.len() > 0 {
        let front = fields.drop_last();
        let last = fields.len() - 1;
        let early = seen_among(schema, front, accept);
        seen_from_fields(schema, front, accept, one);
        assert(fields[last] == fields.last());
        if all.contains(one) {
            let n = choose|n: int| 0 <= n < all.len() && all[n] == one;
            if n < early.len() {
                assert(early[n] == one);
                let k = choose|k: int|
                    0 <= k < front.len() && accept(schema, #[trigger] front[k]) && one == seen_in(
                        schema,
                        front[k],
                    );
                assert(fields[k] == front[k]);
            }
        }
        if from_field(schema, fields, accept, one) {
            let k = choose|k: int|
                0 <= k < fields.len() && accept(schema, #[trigger] fields[k]) && one == seen_in(
                    schema,
                    fields[k],
                );
            if k < front.len() {
                assert(front[k] == fields[k]);
                assert(early.contains(one));
                let n = choose|n: int| 0 <= n < early.len() && early[n] == one;
                assert(all[n] == one);
            } else {
                assert(all[all.len() - 1] == one);
            }
        }
    }
}

spec fn from_place(
    schemas: Seq<SchemaView>,
    accept: spec_fn(SchemaView, FieldView) -> bool,
    one: SeenView,
) -> bool {
    exists|p: Place| #[trigger]
        accepts(schemas, accept, p) && one == seen_in(schemas[p.schema], field_at(schemas, p))
}

proof fn all_seen_from_fields(
    schemas: Seq<SchemaView>,
    accept: spec_fn(SchemaView, FieldView) -> bool,
    one: SeenView,
)
    ensures
        all_seen(schemas, accept).contains(one) <==> from_place(schemas, accept, one),
    decreases schemas.len(),
{
    let all = all_seen(schemas, accept);
    if schemas.len() > 0 {
        let front = schemas.drop_last();
        let last = schemas.len() - 1;
        let fields = schemas[last].fields;
        let early = all_seen(front, accept);
        let own = seen_among(schemas[last], fields, accept);
        assert(schemas.last() == schemas[last]);
        all_seen_from_fields(front, accept, one);
        seen_from_fields(schemas[last], fields, accept, one);
        if all.contains(one) {
            let n = choose|n: int| 0 <= n < all.len() && all[n] == one;
            if n < early.len() {
                assert(early[n] == one);
                let p = choose|p: Place| #[trigger]
                    accepts(front, accept, p) && one == seen_in(
                        front[p.schema],
                        field_at(front, p),
                    );
                assert(schemas[p.schema] == front[p.schema]);
                assert(accepts(schemas, accept, p));
            } else {
                assert(own[n - early.len()] == one);
                let k = choose|k: int|
                    0 <= k < fields.len() && accept(schemas[last], #[trigger] fields[k]) && one
                        == seen_in(schemas[last], fields[k]);
                assert(accepts(schemas, accept, Place { schema: last, field: k }));
            }
        }
        if from_place(schemas, accept, one) {
            let p = choose|p: Place| #[trigger]
                accepts(schemas, accept, p) && one == seen_in(
                    schemas[p.schema],
                    field_at(schemas, p),
                );
            if p.schema < last {
                assert(schemas[p.schema] == front[p.schema]);
                assert(accepts(front, accept, p));
                assert(early.contains(one));
                let n = choose|n: int| 0 <= n < early.len() && early[n] == one;
                assert(all[n] == one);
            } else {
                assert(accept(schemas[last], fields[p.field]));
                assert(own.contains(one));
                let n = choose|n: int| 0 <= n < own.len() && own[n] == one;
                assert(all[early.len() + n] == one);
            }
        }
    }
}

proof fn containers_with_are_seen(seen: Seq<SeenView>, id: Text, container: Text)
    ensures
        containers_with(seen, id).contains(container) <==> exists|n: int|
            0 <= n < seen.len() && (#[trigger] seen[n]).id == id && seen[n].container == container,
    decreases seen.len(),
{
    let all = containers_with(seen, id);
    if seen.len() > 0 {
        let front = seen.drop_last();
        let last = seen.len() - 1;
        let early = containers_with(front, id);
        containers_with_are_seen(front, id, container);
        assert(seen[last] == seen.last());
        if all.contains(container) {
            let c = choose|c: int| 0 <= c < all.len() && all[c] == container;
            if c < early.len() {
                assert(early[c] == container);
                let n = choose|n: int|
                    0 <= n < front.len() && (#[trigger] front[n]).id == id && front[n].container
                        == container;
                assert(seen[n] == front[n]);
            }
        }
        if exists|n: int|
            0 <= n < seen.len() && (#[trigger] seen[n]).id == id && seen[n].container
                == container {
            let n = choose|n: int|
                0 <= n < seen.len() && (#[trigger] seen[n]).id == id && seen[n].container
                    == container;
            if n < last {
                assert(front[n] == seen[n]);
                let c = choose|c: int| 0 <= c < early.len() && early[c] == container;
                assert(all[c] == container);
            } else {
                assert(all[all.len() - 1] == container);
            }
        }
    }
}

proof fn role_is_borne_out(
    schemas: Seq<SchemaView>,
    accept: spec_fn(SchemaView, FieldView) -> bool,
    note: spec_fn(nat, nat) -> Text,
    id: Text,
)
    requires
        ids_of(all_seen(schemas, accept)).contains(id),
    ensures
        is_borne_out(schemas, accept, role_of(all_seen(schemas, accept), id, note)),
{
    let seen = all_seen(schemas, accept);
    let role = role_of(seen, id, note);
    let all = containers_with(seen, id);
    assert forall|c: int| 0 <= c < role.containers.len() implies found_there(
        schemas,
        accept,
        role,
        #[trigger] role.containers[c],
    ) by {
        let container = all[c];
        assert(all.contains(container));
        containers_with_are_seen(seen, id, container);
        let n = choose|n: int|
            0 <= n < seen.len() && (#[trigger] seen[n]).id == id && seen[n].container == container;
        assert(seen.contains(seen[n]));
        all_seen_from_fields(schemas, accept, seen[n]);
        let p = choose|p: Place| #[trigger]
            accepts(schemas, accept, p) && seen[n] == seen_in(
                schemas[p.schema],
                field_at(schemas, p),
            );
        assert(offers(schemas, role, p));
    }
    crate::services::discover::first_spelling_is_seen(seen, id);
    let n = choose|n: int|
        0 <= n < seen.len() && (#[trigger] seen[n]).id == id && seen[n].label
            == crate::services::discover::first_spelling(seen, id);
    assert(seen.contains(seen[n]));
    all_seen_from_fields(schemas, accept, seen[n]);
    let p = choose|p: Place| #[trigger]
        accepts(schemas, accept, p) && seen[n] == seen_in(schemas[p.schema], field_at(schemas, p));
    containers_with_are_seen(seen, id, seen[n].container);
    assert(all.contains(seen[n].container));
    assert(offers(schemas, role, p));
}

proof fn roles_list_exactly(
    schemas: Seq<SchemaView>,
    accept: spec_fn(SchemaView, FieldView) -> bool,
    note: spec_fn(nat, nat) -> Text,
)
    ensures
        lists_exactly(schemas, accept, roles_of(all_seen(schemas, accept), note)),
{
    let seen = all_seen(schemas, accept);
    let roles = roles_of(seen, note);
    let ids = distinct(ids_of(seen));
    distinct_is_ascending(ids_of(seen));
    crate::text_set::ascending_has_no_duplicates(ids);
    assert forall|p: Place| #[trigger] accepts(schemas, accept, p) implies is_among(
        schemas,
        roles,
        p,
    ) by {
        let one = seen_in(schemas[p.schema], field_at(schemas, p));
        all_seen_from_fields(schemas, accept, one);
        let n = choose|n: int| 0 <= n < seen.len() && seen[n] == one;
        assert(ids_of(seen)[n] == one.id);
        assert(ids_of(seen).contains(one.id));
        assert(ids.contains(one.id));
        let r = choose|r: int| 0 <= r < ids.len() && ids[r] == one.id;
        containers_with_are_seen(seen, one.id, one.container);
        assert(offers(schemas, roles[r], p));
    }
    assert forall|r: int| 0 <= r < roles.len() implies is_borne_out(
        schemas,
        accept,
        #[trigger] roles[r],
    ) by {
        assert(ids.contains(ids[r]));
        role_is_borne_out(schemas, accept, note, ids[r]);
    }
    assert forall|r: int, q: int| 0 <= r < q < roles.len() implies (#[trigger] roles[r]).id != (
    #[trigger] roles[q]).id by {
        assert(ids[r] != ids[q]);
    }
}

proof fn sorted_lists_exactly(
    schemas: Seq<SchemaView>,
    accept: spec_fn(SchemaView, FieldView) -> bool,
    roles: Seq<RoleView>,
    sorted: Seq<RoleView>,
)
    requires
        lists_exactly(schemas, accept, roles),
        roles.to_multiset() == sorted.to_multiset(),
    ensures
        lists_exactly(schemas, accept, sorted),
{
    same_items(sorted, roles);
    assert forall|p: Place| #[trigger] accepts(schemas, accept, p) implies is_among(
        schemas,
        sorted,
        p,
    ) by {
        assert(is_among(schemas, roles, p));
        let r = choose|r: int| 0 <= r < roles.len() && offers(schemas, #[trigger] roles[r], p);
        assert(roles.contains(roles[r]));
        assert(sorted.contains(roles[r]));
        let q = choose|q: int| 0 <= q < sorted.len() && sorted[q] == roles[r];
        assert(offers(schemas, sorted[q], p));
    }
    assert forall|r: int| 0 <= r < sorted.len() implies is_borne_out(
        schemas,
        accept,
        #[trigger] sorted[r],
    ) by {
        assert(sorted.contains(sorted[r]));
        let q = choose|q: int| 0 <= q < roles.len() && roles[q] == sorted[r];
        assert(is_borne_out(schemas, accept, roles[q]));
    }
    sorted_ids_differ(roles, sorted);
}

proof fn sorted_ids_differ(roles: Seq<RoleView>, sorted: Seq<RoleView>)
    requires
        forall|r: int, q: int|
            0 <= r < q < roles.len() ==> (#[trigger] roles[r]).id != (#[trigger] roles[q]).id,
        roles.to_multiset() == sorted.to_multiset(),
    ensures
        forall|r: int, q: int|
            0 <= r < q < sorted.len() ==> (#[trigger] sorted[r]).id != (#[trigger] sorted[q]).id,
{
    same_items(sorted, roles);
    assert forall|i: int, j: int|
        0 <= i < roles.len() && 0 <= j < roles.len() && i != j implies roles[i] != roles[j] by {
        if i < j {
            assert(roles[i].id != roles[j].id);
        } else {
            assert(roles[j].id != roles[i].id);
        }
    }
    roles.lemma_multiset_has_no_duplicates();
    sorted.lemma_multiset_has_no_duplicates_conv();
    assert forall|r: int, q: int| 0 <= r < q < sorted.len() implies (#[trigger] sorted[r]).id != (
    #[trigger] sorted[q]).id by {
        assert(sorted[r] != sorted[q]);
        assert(sorted.contains(sorted[r]) && sorted.contains(sorted[q]));
        let i = choose|i: int| 0 <= i < roles.len() && roles[i] == sorted[r];
        let j = choose|j: int| 0 <= j < roles.len() && roles[j] == sorted[q];
        if i < j {
            assert(roles[i].id != roles[j].id);
        } else {
            assert(roles[j].id != roles[i].id);
        }
    }
}

// ── Time fields ──────────────────────────────────────────────────────────

/// The fields that can tell the time: those that the store did not put there,
/// of whose values at least three in five are points in time.
pub open spec fn tells_time() -> spec_fn(SchemaView, FieldView) -> bool {
    |schema: SchemaView, field: FieldView|
        {
            &&& field.name != "_rid"@ && field.name != "_self"@ && field.name != "_etag"@
            &&& field.name != "_attachments"@ && field.name != "_ts"@ && field.name != "_lsn"@
            &&& exists|times: Set<Text>|
                {
                    &&& #[trigger] times.subset_of(field.values)
                    &&& forall|v: Text| times.contains(v) ==> is_point_in_time(v)
                    &&& times.len() > 0
                    &&& 5 * times.len() >= 3 * field.values.len()
                }
        }
}

proof fn accepted_tells_time(schema: SchemaView, field: FieldView)
    requires
        field.values.finite(),
    ensures
        accept_time()(schema, field) <==> tells_time()(schema, field),
{
    let hits = field.values.filter(|v: Text| looks_like_time(v));
    system_fields_are_these(field.name);
    assert(hits.subset_of(field.values));
    assert forall|v: Text| hits.contains(v) implies is_point_in_time(v) by {
        times_are_dates_or_counts(v);
    }
    if accept_time()(schema, field) {
        assert(hits.len() > 0);
    }
    if tells_time()(schema, field) {
        let times = choose|times: Set<Text>|
            {
                &&& #[trigger] times.subset_of(field.values)
                &&& forall|v: Text| times.contains(v) ==> is_point_in_time(v)
                &&& times.len() > 0
                &&& 5 * times.len() >= 3 * field.values.len()
            };
        assert forall|v: Text| times.contains(v) implies hits.contains(v) by {
            times_are_dates_or_counts(v);
        }
        assert(times.subset_of(hits));
        vstd::set_lib::lemma_len_subset(times, hits);
        vstd::set_lib::lemma_len_subset(times, field.values);
    }
}

/// The candidates for the time field are exactly the fields that can tell the
/// time, and behind them the write time: a field of dates, or of counts of
/// seconds or milliseconds, is always offered, and a field of other values
/// never.
pub proof fn every_time_field_is_offered(schemas: Seq<SchemaView>)
    requires
        forall|i: int, k: int|
            0 <= i < schemas.len() && 0 <= k < schemas[i].fields.len() ==> (
            #[trigger] schemas[i].fields[k]).values.finite(),
    ensures
        times_of(schemas).len() > 0,
        lists_exactly(schemas, tells_time(), times_of(schemas).drop_last()),
        times_of(schemas).last().id == "_ts"@,
{
    let roles = roles_of(all_seen(schemas, accept_time()), time_note());
    let sorted = arranged(roles, by_score());
    write_time_comes_last(schemas);
    time_fields_are_listed(schemas);
    assert(times_of(schemas).drop_last() =~= sorted);
}

proof fn time_fields_are_listed(schemas: Seq<SchemaView>)
    requires
        forall|i: int, k: int|
            0 <= i < schemas.len() && 0 <= k < schemas[i].fields.len() ==> (
            #[trigger] schemas[i].fields[k]).values.finite(),
    ensures
        lists_exactly(
            schemas,
            tells_time(),
            arranged(roles_of(all_seen(schemas, accept_time()), time_note()), by_score()),
        ),
{
    let roles = roles_of(all_seen(schemas, accept_time()), time_note());
    let sorted = arranged(roles, by_score());
    roles_list_exactly(schemas, accept_time(), time_note());
    arranged_is_permutation(roles, by_score());
    sorted_lists_exactly(schemas, accept_time(), roles, sorted);
    time_fields_are_accepted(schemas);
    same_fields_same_list(schemas, accept_time(), tells_time(), sorted);
}

proof fn time_fields_are_accepted(schemas: Seq<SchemaView>)
    requires
        forall|i: int, k: int|
            0 <= i < schemas.len() && 0 <= k < schemas[i].fields.len() ==> (
            #[trigger] schemas[i].fields[k]).values.finite(),
    ensures
        forall|p: Place| #[trigger]
            accepts(schemas, accept_time(), p) <==> accepts(schemas, tells_time(), p),
{
    assert forall|p: Place| #[trigger] accepts(schemas, accept_time(), p) <==> accepts(
        schemas,
        tells_time(),
        p,
    ) by {
        if 0 <= p.schema < schemas.len() && 0 <= p.field < schemas[p.schema].fields.len() {
            assert(schemas[p.schema].fields[p.field].values.finite());
            accepted_tells_time(schemas[p.schema], field_at(schemas, p));
        }
    }
}

proof fn same_fields_same_list(
    schemas: Seq<SchemaView>,
    a: spec_fn(SchemaView, FieldView) -> bool,
    b: spec_fn(SchemaView, FieldView) -> bool,
    roles: Seq<RoleView>,
)
    requires
        lists_exactly(schemas, a, roles),
        forall|p: Place| #[trigger] accepts(schemas, a, p) <==> accepts(schemas, b, p),
    ensures
        lists_exactly(schemas, b, roles),
{
    assert forall|p: Place| #[trigger] accepts(schemas, b, p) implies is_among(
        schemas,
        roles,
        p,
    ) by {
        assert(accepts(schemas, a, p));
    }
    assert forall|r: int| 0 <= r < roles.len() implies is_borne_out(
        schemas,
        b,
        #[trigger] roles[r],
    ) by {
        let role = roles[r];
        assert(is_borne_out(schemas, a, role));
        let p = choose|p: Place| #[trigger]
            accepts(schemas, a, p) && offers(schemas, role, p) && field_at(schemas, p).name
                == role.label;
        assert(accepts(schemas, b, p));
        assert forall|c: int| 0 <= c < role.containers.len() implies found_there(
            schemas,
            b,
            role,
            #[trigger] role.containers[c],
        ) by {
            assert(found_there(schemas, a, role, role.containers[c]));
            let p = choose|p: Place| #[trigger]
                accepts(schemas, a, p) && offers(schemas, role, p) && role.containers[c]
                    == schemas[p.schema].database + "/"@ + schemas[p.schema].container;
            assert(accepts(schemas, b, p));
        }
    }
}

// ── Label fields ─────────────────────────────────────────────────────────

/// The fields that can name a step: texts that the store did not put there, in
/// at least half of the documents, from 2 to 25 of them, repeated once there are
/// eight documents to expect it of, none longer than 60 bytes, and not mostly
/// identifiers.
pub open spec fn names_a_step() -> spec_fn(SchemaView, FieldView) -> bool {
    |schema: SchemaView, field: FieldView|
        {
            &&& field.name != "_rid"@ && field.name != "_self"@ && field.name != "_etag"@
            &&& field.name != "_attachments"@ && field.name != "_ts"@ && field.name != "_lsn"@
            &&& field.types.contains("string"@)
            &&& !below(field.fill(schema.sampled_docs), of_ratio(1, 2))
            &&& field.distinct >= 2 && field.distinct <= 25
            &&& field.seen_in < 8 || !below(of_ratio(8, 10), field.distinct_ratio())
            &&& forall|v: Text| #[trigger] field.values.contains(v) ==> byte_length(v) <= 60
            &&& forall|ids: Set<Text>|
                #[trigger] ids.subset_of(field.values) && (forall|v: Text|
                    ids.contains(v) ==> looks_like_id(v)) ==> 2 * ids.len() <= field.values.len()
        }
}

proof fn accepted_names_a_step(schema: SchemaView, field: FieldView)
    requires
        field.values.finite(),
    ensures
        accept_label()(schema, field) <==> names_a_step()(schema, field),
{
    let long = field.values.filter(|v: Text| byte_length(v) > 60);
    let ids = field.values.filter(|v: Text| looks_like_id(v));
    system_fields_are_these(field.name);
    assert(ids.subset_of(field.values));
    if names_steps(schema, field) {
        assert forall|v: Text| #[trigger] field.values.contains(v) implies byte_length(v) <= 60 by {
            if byte_length(v) > 60 {
                assert(long.contains(v));
            }
        }
        assert forall|some: Set<Text>|
            #[trigger] some.subset_of(field.values) && (forall|v: Text|
                some.contains(v) ==> looks_like_id(v)) implies 2 * some.len()
            <= field.values.len() by {
            assert(some.subset_of(ids));
            vstd::set_lib::lemma_len_subset(some, ids);
        }
    }
    if names_a_step()(schema, field) {
        assert(long =~= Set::<Text>::empty());
        assert(2 * ids.len() <= field.values.len());
    }
}

/// The candidates for the step label are exactly the fields that can name a
/// step.
pub proof fn every_label_field_is_offered(schemas: Seq<SchemaView>)
    requires
        forall|i: int, k: int|
            0 <= i < schemas.len() && 0 <= k < schemas[i].fields.len() ==> (
            #[trigger] schemas[i].fields[k]).values.finite(),
    ensures
        lists_exactly(schemas, names_a_step(), labels_of(schemas)),
{
    let accept = accept_label();
    let roles = roles_of(all_seen(schemas, accept), label_note());
    roles_list_exactly(schemas, accept, label_note());
    arranged_is_permutation(roles, by_score());
    sorted_lists_exactly(schemas, accept, roles, labels_of(schemas));
    assert forall|p: Place| #[trigger] accepts(schemas, accept, p) <==> accepts(
        schemas,
        names_a_step(),
        p,
    ) by {
        if 0 <= p.schema < schemas.len() && 0 <= p.field < schemas[p.schema].fields.len() {
            assert(schemas[p.schema].fields[p.field].values.finite());
            accepted_names_a_step(schemas[p.schema], field_at(schemas, p));
        }
    }
    same_fields_same_list(schemas, accept, names_a_step(), labels_of(schemas));
}

/// The candidates of a list come in order: none stands in front of one with a
/// higher score, nor, where neither is higher, of one that is spelled earlier in
/// the alphabet.
pub proof fn roles_are_ranked(schemas: Seq<SchemaView>, i: int, j: int)
    ensures
        0 <= i < j < times_of(schemas).len() ==> {
            let (a, b) = (times_of(schemas)[i], times_of(schemas)[j]);
            &&& !below(a.score, b.score)
            &&& !below(b.score, a.score) ==> !crate::text::precedes(b.label, a.label)
        },
        0 <= i < j < labels_of(schemas).len() ==> {
            let (a, b) = (labels_of(schemas)[i], labels_of(schemas)[j]);
            &&& !below(a.score, b.score)
            &&& !below(b.score, a.score) ==> !crate::text::precedes(b.label, a.label)
        },
{
    let before = by_score();
    crate::services::discover::roles_come_best_first(schemas);
    if 0 <= i < j < times_of(schemas).len() {
        assert(!before(times_of(schemas)[j], times_of(schemas)[i]));
    }
    if 0 <= i < j < labels_of(schemas).len() {
        assert(!before(labels_of(schemas)[j], labels_of(schemas)[i]));
    }
}

// ── Every field, and every value ─────────────────────────────────────────

/// Every field that can carry a key or a flag is listed, and no other.
pub proof fn every_scalar_field_is_listed(schemas: Seq<SchemaView>)
    ensures
        ({
            let roles = roles_of(all_seen(schemas, accept_scalar()), scalar_note());
            &&& lists_exactly(schemas, accept_scalar(), roles)
            &&& forall|p: Place| #[trigger]
                accepts(schemas, accept_scalar(), p) <==> can_carry(schemas, p)
        }),
{
    roles_list_exactly(schemas, accept_scalar(), scalar_note());
    assert forall|p: Place| #[trigger] accepts(schemas, accept_scalar(), p) <==> can_carry(
        schemas,
        p,
    ) by {
        system_fields_are_these(field_at(schemas, p).name);
    }
}

proof fn values_among_are_there(fields: Seq<FieldView>, id: Text, v: Text)
    ensures
        values_among(fields, id).contains(v) <==> exists|k: int|
            0 <= k < fields.len() && lowered((#[trigger] fields[k]).name) == id
                && fields[k].values.contains(v),
    decreases fields.len(),
{
    if fields.len() > 0 {
        let front = fields.drop_last();
        values_among_are_there(front, id, v);
        if values_among(front, id).contains(v) {
            let k = choose|k: int|
                0 <= k < front.len() && lowered((#[trigger] front[k]).name) == id
                    && front[k].values.contains(v);
            assert(fields[k] == front[k]);
        }
        if exists|k: int|
            0 <= k < fields.len() && lowered((#[trigger] fields[k]).name) == id
                && fields[k].values.contains(v) {
            let k = choose|k: int|
                0 <= k < fields.len() && lowered((#[trigger] fields[k]).name) == id
                    && fields[k].values.contains(v);
            if k < front.len() {
                assert(front[k] == fields[k]);
            }
        }
        assert(fields[fields.len() - 1] == fields.last());
    }
}

/// The values of a field are those that were sampled of it in any container,
/// however it is spelled there.
pub proof fn values_are_those_sampled(schemas: Seq<SchemaView>, id: Text, v: Text)
    ensures
        values_named(schemas, id).contains(v) <==> exists|i: int, k: int|
            0 <= i < schemas.len() && 0 <= k < schemas[i].fields.len() && lowered(
                (#[trigger] schemas[i].fields[k]).name,
            ) == id && schemas[i].fields[k].values.contains(v),
    decreases schemas.len(),
{
    if schemas.len() > 0 {
        let front = schemas.drop_last();
        let last = schemas.len() - 1;
        assert(schemas.last() == schemas[last]);
        values_are_those_sampled(front, id, v);
        values_among_are_there(schemas[last].fields, id, v);
        if values_named(front, id).contains(v) {
            let (i, k) = choose|i: int, k: int|
                0 <= i < front.len() && 0 <= k < front[i].fields.len() && lowered(
                    (#[trigger] front[i].fields[k]).name,
                ) == id && front[i].fields[k].values.contains(v);
            assert(schemas[i].fields[k] == front[i].fields[k]);
        }
        if values_among(schemas[last].fields, id).contains(v) {
            let k = choose|k: int|
                0 <= k < schemas[last].fields.len() && lowered(
                    (#[trigger] schemas[last].fields[k]).name,
                ) == id && schemas[last].fields[k].values.contains(v);
            assert(lowered(schemas[last].fields[k].name) == id);
        }
        if exists|i: int, k: int|
            0 <= i < schemas.len() && 0 <= k < schemas[i].fields.len() && lowered(
                (#[trigger] schemas[i].fields[k]).name,
            ) == id && schemas[i].fields[k].values.contains(v) {
            let (i, k) = choose|i: int, k: int|
                0 <= i < schemas.len() && 0 <= k < schemas[i].fields.len() && lowered(
                    (#[trigger] schemas[i].fields[k]).name,
                ) == id && schemas[i].fields[k].values.contains(v);
            if i < last {
                assert(front[i].fields[k] == schemas[i].fields[k]);
            } else {
                assert(schemas[last].fields[k].values.contains(v));
            }
        }
    }
}

/// What looks like an identifier holds a digit and nothing but letters, digits
/// and dashes, in twelve bytes or more; sixteen or more of hexadecimal digits
/// and dashes with a digit among them do, and so do twelve or more letters and
/// digits.
pub proof fn identifiers_are_long_and_hold_digits(v: Text)
    ensures
        looks_like_id(v) ==> byte_length(v) >= 12 && (exists|i: int|
            0 <= i < v.len() && decimal_digit(#[trigger] v[i])) && forall|i: int|
            0 <= i < v.len() ==> decimal_digit(#[trigger] v[i]) || 'a' <= v[i] <= 'z' || 'A'
                <= v[i] <= 'Z' || v[i] == '-',
        looks_like_id(v) && (exists|i: int| 0 <= i < v.len() && #[trigger] v[i] == '-')
            ==> byte_length(v) >= 16 && forall|i: int|
            0 <= i < v.len() ==> decimal_digit(#[trigger] v[i]) || 'a' <= v[i] <= 'f' || 'A'
                <= v[i] <= 'F' || v[i] == '-',
        byte_length(v) >= 16 && (exists|i: int| 0 <= i < v.len() && decimal_digit(#[trigger] v[i]))
            && (forall|i: int|
            0 <= i < v.len() ==> decimal_digit(#[trigger] v[i]) || 'a' <= v[i] <= 'f' || 'A'
                <= v[i] <= 'F' || v[i] == '-') ==> looks_like_id(v),
        byte_length(v) >= 12 && (exists|i: int| 0 <= i < v.len() && decimal_digit(#[trigger] v[i]))
            && (forall|i: int|
            0 <= i < v.len() ==> decimal_digit(#[trigger] v[i]) || 'a' <= v[i] <= 'z' || 'A'
                <= v[i] <= 'Z') ==> looks_like_id(v),
{
}

// ── What is noted ────────────────────────────────────────────────────────

/// The most distinct values that a field had in one container are those of some
/// container, and none had more.
pub proof fn most_distinct_is_the_most(seen: Seq<SeenView>, id: Text, n: int)
    ensures
        0 <= n < seen.len() && seen[n].id == id ==> seen[n].distinct <= most_distinct(seen, id),
        most_distinct(seen, id) > 0 ==> exists|k: int|
            0 <= k < seen.len() && (#[trigger] seen[k]).id == id && seen[k].distinct
                == most_distinct(seen, id),
    decreases seen.len(),
{
    if seen.len() > 0 {
        let front = seen.drop_last();
        let last = seen.len() - 1;
        most_distinct_is_the_most(front, id, n);
        assert(seen[last] == seen.last());
        if n < last && 0 <= n {
            assert(front[n] == seen[n]);
        }
        if most_distinct(front, id) > 0 {
            let k = choose|k: int|
                0 <= k < front.len() && (#[trigger] front[k]).id == id && front[k].distinct
                    == most_distinct(front, id);
            assert(seen[k] == front[k]);
        }
    }
}

/// What is noted of a candidate says in how many containers it was found, and of
/// a label how many values it has. The write time is found in all containers,
/// and its note says that it is not the documents' own; it is worth half of what
/// a field in a single container is.
pub proof fn notes_say_where_fields_were_found(
    seen: Seq<SeenView>,
    id: Text,
    n: nat,
    most: nat,
    schemas: Seq<SchemaView>,
    i: int,
)
    ensures
        time_note()(n, most) == "timestamp-shaped, in "@ + decimal(n) + " container(s)"@,
        scalar_note()(n, most) == "in "@ + decimal(n) + " container(s)"@,
        label_note()(n, most) == decimal(most) + " distinct values, in "@ + decimal(n)
            + " container(s)"@,
        role_of(seen, id, label_note()).note == label_note()(
            role_of(seen, id, label_note()).containers.len(),
            most_distinct(seen, id),
        ),
        role_of(seen, id, time_note()).note == time_note()(
            role_of(seen, id, time_note()).containers.len(),
            0,
        ),
        write_time(schemas).id == "_ts"@,
        write_time(schemas).label == "_ts"@,
        write_time(schemas).note
            == "Cosmos write time — always present, but not your domain timestamp"@,
        write_time(schemas).score == of_ratio(1, 2),
        write_time(schemas).containers.len() == schemas.len(),
        0 <= i < schemas.len() ==> write_time(schemas).containers[i] == schemas[i].database + "/"@
            + schemas[i].container,
{
    assert("timestamp-shaped, in "@ + (decimal(n) + " container(s)"@) =~= "timestamp-shaped, in "@
        + decimal(n) + " container(s)"@);
    assert("in "@ + (decimal(n) + " container(s)"@) =~= "in "@ + decimal(n) + " container(s)"@);
    assert(decimal(most) + " distinct values, in "@ + (decimal(n) + " container(s)"@) =~= decimal(
        most,
    ) + " distinct values, in "@ + decimal(n) + " container(s)"@);
}

} // verus!
