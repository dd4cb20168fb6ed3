//! What the candidates for the key promise, said of the sampled fields
//! themselves: which containers a key ties together, and what it shows of them.

use crate::order::{
    arranged_is_permutation, ascending, distinct, distinct_is_ascending, same_items,
};
use crate::services::cosmos::{FieldView, SchemaView};
use crate::services::grouping::{connected, groups, groups_partition, is_grouped, is_way};
use crate::services::keys::{
    best_in, best_in_exists, best_nodes, binding_of, candidate_of, candidates_of, common_name,
    containers_of, fields_of, first_name, full_name, group_binds_each_container_once,
    evidence_of, id_nodes, identity_is_first_name, is_sparse, key_before, keys_of,
    left_out_is_the_rest, looks_like_status, merits_of, nodes_at, paths_of, reason, score_of, shared_values, shared_values_are_in_two, spelled,
    BindingView, EvidenceView, KeyView, Merits,
};
use crate::services::nodes::{
    is_offered, linked, linked_either_way, links, mostly_ids, node_of, nodes_among, nodes_of,
    NodeView,
};
use crate::services::shapes::{hints_at_id, looks_like_id};
use crate::single::{below, negative, of_count, of_ratio, percent, product, sum, Real};
use crate::text::{
    byte_length, decimal, joined, lowered, occurring_is_being_part, occurs, precedes,
    precedes_is_irreflexive, Text,
};
use vstd::prelude::*;

verus! {

// ── Which fields are one identifier ──────────────────────────────────────

/// A field of an account, by the number of its container and its own.
pub struct Place {
    pub schema: int,
    pub field: int,
}

/// The field at `p`.
pub open spec fn field_at(schemas: Seq<SchemaView>, p: Place) -> FieldView {
    schemas[p.schema].fields[p.field]
}

/// Whether there is a field at `p` that can carry a key: it was seen to hold
/// texts or numbers, and the store did not put it there.
pub open spec fn can_carry(schemas: Seq<SchemaView>, p: Place) -> bool {
    &&& 0 <= p.schema < schemas.len()
    &&& 0 <= p.field < schemas[p.schema].fields.len()
    &&& field_at(schemas, p).types.contains("string"@) || field_at(schemas, p).types.contains(
        "number"@,
    )
    &&& field_at(schemas, p).name != "_rid"@
    &&& field_at(schemas, p).name != "_self"@
    &&& field_at(schemas, p).name != "_etag"@
    &&& field_at(schemas, p).name != "_attachments"@
    &&& field_at(schemas, p).name != "_ts"@
    &&& field_at(schemas, p).name != "_lsn"@
}

/// Whether both fields were seen to hold `v`, which is eight bytes long or
/// longer.
pub open spec fn both_hold(schemas: Seq<SchemaView>, p: Place, q: Place, v: Text) -> bool {
    &&& field_at(schemas, p).values.contains(v)
    &&& field_at(schemas, q).values.contains(v)
    &&& byte_length(v) >= 8
}

/// Whether fields of two containers go by one name, whatever its case, or hold
/// two such values in common, whatever characters these are made of.
pub open spec fn tied(schemas: Seq<SchemaView>, p: Place, q: Place) -> bool {
    &&& p.schema != q.schema
    &&& {
        ||| lowered(field_at(schemas, p).name) == lowered(field_at(schemas, q).name)
        ||| exists|u: Text, v: Text|
            u != v && #[trigger] both_hold(schemas, p, q, u) && #[trigger] both_hold(
                schemas,
                p,
                q,
                v,
            )
    }
}

/// Whether `way` leads through fields that can carry a key, each tied to the
/// next.
pub open spec fn ties_lead(schemas: Seq<SchemaView>, way: Seq<Place>) -> bool {
    &&& way.len() > 0
    &&& forall|k: int| 0 <= k < way.len() ==> can_carry(schemas, #[trigger] way[k])
    &&& forall|k: int| 0 <= k < way.len() - 1 ==> tied(schemas, #[trigger] way[k], way[k + 1])
}

/// Whether `binding` says of its container what was sampled of the field at `p`.
pub open spec fn binds_field(schemas: Seq<SchemaView>, binding: BindingView, p: Place) -> bool {
    let schema = schemas[p.schema];
    &&& binding.container == schema.database + "/"@ + schema.container
    &&& binding.field == field_at(schemas, p).name
    &&& binding.seen_in == field_at(schemas, p).seen_in
    &&& binding.distinct == field_at(schemas, p).distinct
    &&& binding.sampled_docs == schema.sampled_docs
}

/// Whether `binding` is of the container of the field at `p`, and of a field
/// there that is at least as selective: with more distinct values, or with as
/// many of them in at least as many documents.
pub open spec fn binds_container(schemas: Seq<SchemaView>, binding: BindingView, p: Place) -> bool {
    let schema = schemas[p.schema];
    let field = field_at(schemas, p);
    &&& binding.container == schema.database + "/"@ + schema.container
    &&& binding.distinct > field.distinct || (binding.distinct == field.distinct && binding.seen_in
        >= field.seen_in)
}

/// Whether one of the bindings of `key` is of the container of the field at `p`.
pub open spec fn reaches(schemas: Seq<SchemaView>, key: KeyView, p: Place) -> bool {
    exists|b: int|
        0 <= b < key.bindings.len() && binds_container(schemas, #[trigger] key.bindings[b], p)
}

proof fn offered_can_carry(schemas: Seq<SchemaView>, p: Place)
    requires
        0 <= p.schema < schemas.len(),
        0 <= p.field < schemas[p.schema].fields.len(),
    ensures
        is_offered(field_at(schemas, p)) <==> can_carry(schemas, p),
{
    system_fields_are_these(field_at(schemas, p).name);
}

/// The metadata of the store goes by six names, and by no others.
pub proof fn system_fields_are_these(name: Text)
    ensures
        crate::services::cosmos::is_system_field(name) <==> {
            ||| name == "_rid"@
            ||| name == "_self"@
            ||| name == "_etag"@
            ||| name == "_attachments"@
            ||| name == "_ts"@
            ||| name == "_lsn"@
        },
{
    let all = crate::services::cosmos::SYSTEM_FIELDS@;
    assert(all[0]@ == "_rid"@);
    assert(all[1]@ == "_self"@);
    assert(all[2]@ == "_etag"@);
    assert(all[3]@ == "_attachments"@);
    assert(all[4]@ == "_ts"@);
    assert(all[5]@ == "_lsn"@);
}

proof fn tied_is_linked(schemas: Seq<SchemaView>, p: Place, q: Place)
    requires
        0 <= p.schema,
        0 <= q.schema,
        field_at(schemas, p).values.finite(),
        field_at(schemas, q).values.finite(),
    ensures
        tied(schemas, p, q) <==> linked(
            node_of(p.schema as nat, schemas[p.schema], field_at(schemas, p)),
            node_of(q.schema as nat, schemas[q.schema], field_at(schemas, q)),
        ),
{
    let a = node_of(p.schema as nat, schemas[p.schema], field_at(schemas, p));
    let b = node_of(q.schema as nat, schemas[q.schema], field_at(schemas, q));
    let common = a.linkable.intersect(b.linkable);
    assert forall|v: Text| common.contains(v) <==> #[trigger] both_hold(schemas, p, q, v) by {}
    if exists|u: Text, v: Text|
        u != v && #[trigger] both_hold(schemas, p, q, u) && #[trigger] both_hold(schemas, p, q, v) {
        let (u, v) = choose|u: Text, v: Text|
            u != v && #[trigger] both_hold(schemas, p, q, u) && #[trigger] both_hold(
                schemas,
                p,
                q,
                v,
            );
        let pair = Set::<Text>::empty().insert(u).insert(v);
        assert(pair.len() == 2);
        assert(pair.subset_of(common));
        vstd::set_lib::lemma_len_subset(pair, common);
    }
    if common.len() >= 2 {
        let u = common.choose();
        let rest = common.remove(u);
        assert(rest.len() >= 1);
        let v = rest.choose();
        assert(common.contains(u));
        assert(rest.contains(v));
        assert(both_hold(schemas, p, q, u) && both_hold(schemas, p, q, v));
    }
}

// ── Fields and what stands for them ──────────────────────────────────────

proof fn node_among_fields(idx: nat, schema: SchemaView, fields: Seq<FieldView>, n: int)
    requires
        0 <= n < nodes_among(idx, schema, fields).len(),
    ensures
        exists|k: int|
            0 <= k < fields.len() && is_offered(#[trigger] fields[k]) && nodes_among(
                idx,
                schema,
                fields,
            )[n] == node_of(idx, schema, fields[k]),
    decreases fields.len(),
{
    let front = fields.drop_last();
    let early = nodes_among(idx, schema, front);
    let all = nodes_among(idx, schema, fields);
    if n < early.len() {
        node_among_fields(idx, schema, front, n);
        let k = choose|k: int|
            0 <= k < front.len() && is_offered(#[trigger] front[k]) && early[n] == node_of(
                idx,
                schema,
                front[k],
            );
        assert(fields[k] == front[k]);
        assert(all[n] == early[n]);
    } else {
        assert(fields[fields.len() - 1] == fields.last());
    }
}

proof fn field_among_nodes(idx: nat, schema: SchemaView, fields: Seq<FieldView>, k: int)
    requires
        0 <= k < fields.len(),
        is_offered(fields[k]),
    ensures
        exists|n: int|
            0 <= n < nodes_among(idx, schema, fields).len() && #[trigger] nodes_among(
                idx,
                schema,
                fields,
            )[n] == node_of(idx, schema, fields[k]),
    decreases fields.len(),
{
    let front = fields.drop_last();
    let early = nodes_among(idx, schema, front);
    let all = nodes_among(idx, schema, fields);
    if k < front.len() {
        field_among_nodes(idx, schema, front, k);
        let n = choose|n: int|
            0 <= n < early.len() && #[trigger] early[n] == node_of(idx, schema, front[k]);
        assert(all[n] == early[n]);
    } else {
        assert(all[all.len() - 1] == node_of(idx, schema, fields[k]));
    }
}

/// Whether the node with number `n` stands for the field at `p`.
spec fn stands_for(schemas: Seq<SchemaView>, n: int, p: Place) -> bool {
    &&& 0 <= n < nodes_of(schemas).len()
    &&& can_carry(schemas, p)
    &&& nodes_of(schemas)[n] == node_of(
        p.schema as nat,
        schemas[p.schema],
        field_at(schemas, p),
    )
}

proof fn node_stands_for_a_field(schemas: Seq<SchemaView>, n: int)
    requires
        0 <= n < nodes_of(schemas).len(),
    ensures
        exists|p: Place| #[trigger] stands_for(schemas, n, p),
    decreases schemas.len(),
{
    let front = schemas.drop_last();
    let early = nodes_of(front);
    let last = schemas.len() - 1;
    if n < early.len() {
        node_stands_for_a_field(front, n);
        let p = choose|p: Place| #[trigger] stands_for(front, n, p);
        assert(schemas[p.schema] == front[p.schema]);
        assert(nodes_of(schemas)[n] == early[n]);
        assert(stands_for(schemas, n, p));
    } else {
        let own = nodes_among(last as nat, schemas[last], schemas[last].fields);
        assert(schemas.last() == schemas[last]);
        node_among_fields(last as nat, schemas[last], schemas[last].fields, n - early.len());
        let k = choose|k: int|
            0 <= k < schemas[last].fields.len() && is_offered(#[trigger] schemas[last].fields[k])
                && own[n - early.len()] == node_of(
                last as nat,
                schemas[last],
                schemas[last].fields[k],
            );
        let p = Place { schema: last, field: k };
        offered_can_carry(schemas, p);
        assert(stands_for(schemas, n, p));
    }
}

proof fn field_has_a_node(schemas: Seq<SchemaView>, p: Place)
    requires
        can_carry(schemas, p),
    ensures
        exists|n: int| #[trigger] stands_for(schemas, n, p),
    decreases schemas.len(),
{
    let front = schemas.drop_last();
    let early = nodes_of(front);
    let last = schemas.len() - 1;
    offered_can_carry(schemas, p);
    if p.schema < last {
        assert(front[p.schema] == schemas[p.schema]);
        field_has_a_node(front, p);
        let n = choose|n: int| #[trigger] stands_for(front, n, p);
        assert(nodes_of(schemas)[n] == early[n]);
        assert(stands_for(schemas, n, p));
    } else {
        assert(schemas.last() == schemas[last]);
        let fields = schemas[last].fields;
        let own = nodes_among(last as nat, schemas[last], fields);
        field_among_nodes(last as nat, schemas[last], fields, p.field);
        let n = choose|n: int|
            0 <= n < own.len() && #[trigger] own[n] == node_of(
                last as nat,
                schemas[last],
                fields[p.field],
            );
        assert(nodes_of(schemas)[early.len() + n] == own[n]);
        assert(stands_for(schemas, early.len() + n, p));
    }
}

proof fn best_is_most_selective(nodes: Seq<NodeView>, container: Text, k: int)
    requires
        0 <= k < nodes.len(),
        nodes[k].container == container,
    ensures
        best_in(nodes, container) is Some,
        ({
            let best = best_in(nodes, container)->0;
            best.distinct > nodes[k].distinct || (best.distinct == nodes[k].distinct && best.seen_in
                >= nodes[k].seen_in)
        }),
    decreases nodes.len(),
{
    let front = nodes.drop_last();
    if k < front.len() {
        assert(front[k] == nodes[k]);
        best_is_most_selective(front, container, k);
    }
}

/// The candidate of a group reaches the container of every field in it.
proof fn group_reaches(schemas: Seq<SchemaView>, g: int, n: nat, p: Place)
    requires
        stands_for(schemas, n as int, p),
        0 <= g < groups(nodes_of(schemas).len(), links(nodes_of(schemas))).len(),
        groups(nodes_of(schemas).len(), links(nodes_of(schemas)))[g].contains(n),
    ensures
        reaches(schemas, candidates_of(schemas)[g], p),
{
    let nodes = nodes_of(schemas);
    let group = groups(nodes.len(), links(nodes))[g];
    let own = nodes_at(nodes, group);
    let key = candidates_of(schemas)[g];
    let m = choose|m: int| 0 <= m < group.len() && group[m] == n;
    let container = nodes[n as int].container;
    assert(own[m] == nodes[n as int]);
    assert(containers_of(own)[m] == container);
    assert(containers_of(own).contains(container));
    group_binds_each_container_once(own, paths_of(schemas));
    let bound = Seq::new(key.bindings.len(), |i: int| key.bindings[i].container);
    assert(bound.contains(container));
    let b = choose|b: int| 0 <= b < bound.len() && bound[b] == container;
    best_is_most_selective(own, container, m);
    let containers = distinct(containers_of(own));
    distinct_is_ascending(containers_of(own));
    assert(containers.contains(containers[b]));
    best_in_exists(own, containers[b]);
    assert(key.bindings[b] == binding_of(best_in(own, containers[b])->0));
    assert(containers[b] == container);
    assert(binds_container(schemas, key.bindings[b], p));
}

/// Whether a key of the account reaches the containers of both fields.
pub open spec fn one_key_reaches(schemas: Seq<SchemaView>, p: Place, q: Place) -> bool {
    exists|c: int|
        0 <= c < keys_of(schemas).len() && reaches(schemas, #[trigger] keys_of(schemas)[c], p)
            && reaches(schemas, keys_of(schemas)[c], q)
}

/// Fields that are tied are one key: where fields of two containers go by one
/// name, or hold two values of eight bytes or more in common, some candidate
/// binds both containers, whatever the fields are called and whatever the
/// values look like. Each container is bound by its most selective field.
pub proof fn tied_fields_are_one_key(schemas: Seq<SchemaView>, p: Place, q: Place)
    requires
        can_carry(schemas, p),
        can_carry(schemas, q),
        field_at(schemas, p).values.finite(),
        field_at(schemas, q).values.finite(),
        tied(schemas, p, q) || p == q,
    ensures
        one_key_reaches(schemas, p, q),
{
    let nodes = nodes_of(schemas);
    let link = links(nodes);
    let all = groups(nodes.len(), link);
    field_has_a_node(schemas, p);
    field_has_a_node(schemas, q);
    let i = choose|i: int| #[trigger] stands_for(schemas, i, p);
    let j = if p == q {
        i
    } else {
        choose|j: int| #[trigger] stands_for(schemas, j, q)
    };
    assert(stands_for(schemas, j, q));
    groups_partition(nodes.len(), link);
    if p == q {
        let way = seq![i];
        assert(is_way(nodes.len(), link, way));
        assert(way.first() == i && way.last() == j);
    } else {
        tied_is_linked(schemas, p, q);
        linked_either_way(nodes[i], nodes[j]);
        let way = seq![i, j];
        assert(link(i, j) && link(j, i));
        assert(i != j);
        assert(is_way(nodes.len(), link, way));
        assert(way.first() == i && way.last() == j);
    }
    assert(connected(nodes.len(), link, i, j));
    assert(is_grouped(all, i as nat));
    let g = choose|g: int| 0 <= g < all.len() && (#[trigger] all[g]).contains(i as nat);
    assert(all[g].contains(j as nat));
    group_reaches(schemas, g, i as nat, p);
    group_reaches(schemas, g, j as nat, q);
    let key = candidates_of(schemas)[g];
    let before = |a: KeyView, b: KeyView| key_before(a, b);
    arranged_is_permutation(candidates_of(schemas), before);
    same_items(keys_of(schemas), candidates_of(schemas));
    assert(candidates_of(schemas).contains(key));
    assert(keys_of(schemas).contains(key));
    let c = choose|c: int| 0 <= c < keys_of(schemas).len() && keys_of(schemas)[c] == key;
    assert(reaches(schemas, keys_of(schemas)[c], p));
}

proof fn way_of_fields(schemas: Seq<SchemaView>, way: Seq<int>) -> (out: Seq<Place>)
    requires
        forall|i: int, k: int|
            0 <= i < schemas.len() && 0 <= k < schemas[i].fields.len() ==> (
            #[trigger] schemas[i].fields[k]).values.finite(),
        is_way(nodes_of(schemas).len(), links(nodes_of(schemas)), way),
    ensures
        out.len() == way.len(),
        ties_lead(schemas, out),
        forall|k: int| 0 <= k < way.len() ==> stands_for(schemas, #[trigger] way[k], out[k]),
{
    let nodes = nodes_of(schemas);
    let link = links(nodes);
    let out = Seq::new(way.len(), |k: int| choose|p: Place| #[trigger] stands_for(schemas, way[k], p));
    assert forall|k: int| 0 <= k < way.len() implies stands_for(
        schemas,
        #[trigger] way[k],
        out[k],
    ) by {
        node_stands_for_a_field(schemas, way[k]);
    }
    assert forall|k: int| 0 <= k < out.len() implies can_carry(schemas, #[trigger] out[k]) by {
        assert(stands_for(schemas, way[k], out[k]));
    }
    assert forall|k: int| 0 <= k < out.len() - 1 implies tied(
        schemas,
        #[trigger] out[k],
        out[k + 1],
    ) by {
        let (p, q) = (out[k], out[k + 1]);
        assert(stands_for(schemas, way[k], p));
        assert(stands_for(schemas, way[k + 1], q));
        assert(crate::services::grouping::adjacent(link, way[k], way[k + 1]));
        linked_either_way(nodes[way[k]], nodes[way[k + 1]]);
        assert(schemas[p.schema].fields[p.field].values.finite());
        assert(schemas[q.schema].fields[q.field].values.finite());
        tied_is_linked(schemas, p, q);
    }
    out
}

/// A key binds nothing together that is not tied: from the field of one of its
/// bindings a chain of ties leads to the field of every other. Fields of one
/// container are never tied to each other, and values that are short, or that
/// only one of two fields holds, tie nothing.
pub proof fn keys_bind_only_what_is_tied(schemas: Seq<SchemaView>, c: int, a: int, b: int)
    requires
        forall|i: int, k: int|
            0 <= i < schemas.len() && 0 <= k < schemas[i].fields.len() ==> (
            #[trigger] schemas[i].fields[k]).values.finite(),
        0 <= c < keys_of(schemas).len(),
        0 <= a < keys_of(schemas)[c].bindings.len(),
        0 <= b < keys_of(schemas)[c].bindings.len(),
    ensures
        exists|way: Seq<Place>| #[trigger]
            ties_lead(schemas, way) && binds_field(
                schemas,
                keys_of(schemas)[c].bindings[a],
                way.first(),
            ) && binds_field(schemas, keys_of(schemas)[c].bindings[b], way.last()),
{
    let nodes = nodes_of(schemas);
    let link = links(nodes);
    let all = groups(nodes.len(), link);
    let key = keys_of(schemas)[c];
    let before = |x: KeyView, y: KeyView| key_before(x, y);
    arranged_is_permutation(candidates_of(schemas), before);
    same_items(keys_of(schemas), candidates_of(schemas));
    assert(keys_of(schemas).contains(key));
    let g = choose|g: int| 0 <= g < candidates_of(schemas).len() && candidates_of(schemas)[g] == key;
    let own = nodes_at(nodes, all[g]);
    groups_partition(nodes.len(), link);
    group_binds_each_container_once(own, paths_of(schemas));
    let x = choose|x: int| 0 <= x < own.len() && key.bindings[a] == binding_of(#[trigger] own[x]);
    let y = choose|y: int| 0 <= y < own.len() && key.bindings[b] == binding_of(#[trigger] own[y]);
    let (i, j) = (all[g][x], all[g][y]);
    assert(all[g].contains(i) && all[g].contains(j));
    assert(connected(nodes.len(), link, i as int, j as int));
    let way = choose|way: Seq<int>| #[trigger]
        is_way(nodes.len(), link, way) && way.first() == i && way.last() == j;
    let out = way_of_fields(schemas, way);
    assert(stands_for(schemas, way[0], out[0]));
    assert(stands_for(schemas, way[way.len() - 1], out[out.len() - 1]));
    assert(out.first() == out[0] && out.last() == out[out.len() - 1]);
    assert(binds_field(schemas, key.bindings[a], out.first()));
    assert(binds_field(schemas, key.bindings[b], out.last()));
}

/// No key stands in front of one with a higher score, nor, where neither score
/// is higher, in front of one whose name comes earlier in the alphabet.
pub proof fn keys_are_ranked(schemas: Seq<SchemaView>, i: int, j: int)
    requires
        0 <= i < j < keys_of(schemas).len(),
    ensures
        ({
            let (a, b) = (keys_of(schemas)[i], keys_of(schemas)[j]);
            &&& !crate::single::below(a.score, b.score)
            &&& !crate::single::below(b.score, a.score) ==> !precedes(b.label, a.label)
        }),
{
    let before = |a: KeyView, b: KeyView| key_before(a, b);
    crate::services::keys::keys_come_best_first(schemas);
    assert(!before(keys_of(schemas)[j], keys_of(schemas)[i]));
}

// ── What a key shows ─────────────────────────────────────────────────────

/// How many of `bindings` are of fields called `name`.
pub open spec fn bound_as(bindings: Seq<BindingView>, name: Text) -> nat {
    bindings.filter(|b: BindingView| b.field == name).len()
}

proof fn key_has_its_fields(schemas: Seq<SchemaView>, c: int) -> (best: Seq<NodeView>)
    requires
        0 <= c < keys_of(schemas).len(),
    ensures
        keys_of(schemas)[c] == candidate_of(best, paths_of(schemas)),
        best.len() > 0,
        ascending(containers_of(best)),
{
    let nodes = nodes_of(schemas);
    let link = links(nodes);
    let all = groups(nodes.len(), link);
    let key = keys_of(schemas)[c];
    let before = |x: KeyView, y: KeyView| key_before(x, y);
    arranged_is_permutation(candidates_of(schemas), before);
    same_items(keys_of(schemas), candidates_of(schemas));
    assert(keys_of(schemas).contains(key));
    let g = choose|g: int| 0 <= g < candidates_of(schemas).len() && candidates_of(schemas)[g] == key;
    let own = nodes_at(nodes, all[g]);
    let best = best_nodes(own);
    groups_partition(nodes.len(), link);
    assert(all[g].len() > 0);
    distinct_is_ascending(containers_of(own));
    let containers = distinct(containers_of(own));
    assert forall|k: int| 0 <= k < best.len() implies (#[trigger] best[k]).container
        == containers[k] by {
        assert(containers.contains(containers[k]));
        best_in_exists(own, containers[k]);
    }
    assert(containers_of(best) =~= containers);
    assert(containers_of(own).contains(containers_of(own)[0]));
    assert(containers.contains(containers_of(own)[0]));
    best
}

proof fn spelled_is_bound(nodes: Seq<NodeView>, name: Text)
    ensures
        spelled(nodes, name) == bound_as(
            Seq::new(nodes.len(), |i: int| binding_of(nodes[i])),
            name,
        ),
    decreases nodes.len(),
{
    reveal(Seq::filter);
    let all = Seq::new(nodes.len(), |i: int| binding_of(nodes[i]));
    if nodes.len() > 0 {
        let front = nodes.drop_last();
        spelled_is_bound(front, name);
        assert(all.drop_last() =~= Seq::new(front.len(), |i: int| binding_of(front[i])));
    }
}

proof fn common_name_is_common(nodes: Seq<NodeView>, names: Seq<Text>)
    requires
        names.len() > 0,
    ensures
        names.contains(common_name(nodes, names)),
        forall|k: int|
            0 <= k < names.len() ==> {
                let name = #[trigger] names[k];
                let best = common_name(nodes, names);
                &&& spelled(nodes, name) <= spelled(nodes, best)
                &&& spelled(nodes, name) == spelled(nodes, best) ==> byte_length(best)
                    <= byte_length(name)
            },
    decreases names.len(),
{
    let best = common_name(nodes, names);
    if names.len() == 1 {
        assert(names[0] == best);
    } else {
        let front = names.drop_last();
        common_name_is_common(nodes, front);
        let k = choose|k: int| 0 <= k < front.len() && front[k] == common_name(nodes, front);
        assert(names[k] == front[k]);
        assert(names[names.len() - 1] == names.last());
        assert forall|k: int| 0 <= k < names.len() implies {
            let name = #[trigger] names[k];
            &&& spelled(nodes, name) <= spelled(nodes, best)
            &&& spelled(nodes, name) == spelled(nodes, best) ==> byte_length(best) <= byte_length(
                name,
            )
        } by {
            if k < front.len() {
                assert(front[k] == names[k]);
            }
        }
    }
}

/// A key says what its bindings show. It binds each container once, in
/// ascending order, and misses exactly the others. It is called by a name that
/// the most containers use, by a shortest of those. It is cross-named exactly
/// when two containers call it differently. Its identity is the first, in the
/// alphabet, of its containers with their fields.
pub proof fn keys_show_their_bindings(schemas: Seq<SchemaView>, c: int)
    requires
        0 <= c < keys_of(schemas).len(),
    ensures
        ({
            let key = keys_of(schemas)[c];
            let bound = key.bindings;
            &&& bound.len() > 0
            &&& forall|i: int, j: int|
                0 <= i < j < bound.len() ==> precedes(
                    (#[trigger] bound[i]).container,
                    (#[trigger] bound[j]).container,
                )
            &&& forall|x: Text| #[trigger]
                key.missing.contains(x) <==> (exists|s: int|
                    0 <= s < schemas.len() && x == (#[trigger] schemas[s]).database + "/"@
                        + schemas[s].container) && !(exists|b: int|
                    0 <= b < bound.len() && (#[trigger] bound[b]).container == x)
            &&& exists|b: int| 0 <= b < bound.len() && (#[trigger] bound[b]).field == key.label
            &&& forall|b: int|
                0 <= b < bound.len() ==> {
                    let name = (#[trigger] bound[b]).field;
                    &&& bound_as(bound, name) <= bound_as(bound, key.label)
                    &&& bound_as(bound, name) == bound_as(bound, key.label) ==> byte_length(
                        key.label,
                    ) <= byte_length(name)
                }
            &&& key.cross_named <==> exists|i: int, j: int|
                0 <= i < bound.len() && 0 <= j < bound.len() && (#[trigger] bound[i]).field != (
                #[trigger] bound[j]).field
            &&& exists|b: int|
                0 <= b < bound.len() && key.id == (#[trigger] bound[b]).container + "\u{1}"@
                    + bound[b].field
            &&& forall|b: int|
                0 <= b < bound.len() ==> !precedes(
                    (#[trigger] bound[b]).container + "\u{1}"@ + bound[b].field,
                    key.id,
                )
        }),
{
    let best = key_has_its_fields(schemas, c);
    let key = keys_of(schemas)[c];
    let bound = key.bindings;
    let fields = fields_of(best);
    let names = distinct(fields);
    let paths = paths_of(schemas);
    let containers = containers_of(best);
    assert(bound =~= Seq::new(best.len(), |i: int| binding_of(best[i])));
    assert forall|i: int, j: int| 0 <= i < j < bound.len() implies precedes(
        (#[trigger] bound[i]).container,
        (#[trigger] bound[j]).container,
    ) by {
        assert(precedes(containers[i], containers[j]));
    }
    assert forall|x: Text| #[trigger] key.missing.contains(x) <==> (exists|s: int|
        0 <= s < schemas.len() && x == (#[trigger] schemas[s]).database + "/"@
            + schemas[s].container) && !(exists|b: int|
        0 <= b < bound.len() && (#[trigger] bound[b]).container == x) by {
        left_out_is_the_rest(paths, containers);
        if paths.contains(x) {
            let s = choose|s: int| 0 <= s < paths.len() && paths[s] == x;
            assert(x == schemas[s].database + "/"@ + schemas[s].container);
        }
        if exists|s: int|
            0 <= s < schemas.len() && x == (#[trigger] schemas[s]).database + "/"@
                + schemas[s].container {
            let s = choose|s: int|
                0 <= s < schemas.len() && x == (#[trigger] schemas[s]).database + "/"@
                    + schemas[s].container;
            assert(paths[s] == x);
        }
        if containers.contains(x) {
            let b = choose|b: int| 0 <= b < containers.len() && containers[b] == x;
            assert(bound[b].container == x);
        }
        if exists|b: int| 0 <= b < bound.len() && (#[trigger] bound[b]).container == x {
            let b = choose|b: int| 0 <= b < bound.len() && (#[trigger] bound[b]).container == x;
            assert(containers[b] == x);
        }
    }
    distinct_is_ascending(fields);
    assert(fields.contains(fields[0]));
    assert(names.contains(fields[0]));
    common_name_is_common(best, names);
    assert(fields.contains(key.label)) by {
        assert(names.contains(key.label));
    }
    let f = choose|f: int| 0 <= f < fields.len() && fields[f] == key.label;
    assert(bound[f].field == key.label);
    assert forall|b: int| 0 <= b < bound.len() implies {
        let name = (#[trigger] bound[b]).field;
        &&& bound_as(bound, name) <= bound_as(bound, key.label)
        &&& bound_as(bound, name) == bound_as(bound, key.label) ==> byte_length(key.label)
            <= byte_length(name)
    } by {
        let name = bound[b].field;
        assert(fields[b] == name);
        assert(names.contains(name));
        let k = choose|k: int| 0 <= k < names.len() && names[k] == name;
        assert(spelled(best, names[k]) <= spelled(best, key.label));
        spelled_is_bound(best, name);
        spelled_is_bound(best, key.label);
    }
    if names.len() > 1 {
        assert(names.contains(names[0]) && names.contains(names[1]));
        let i = choose|i: int| 0 <= i < fields.len() && fields[i] == names[0];
        let j = choose|j: int| 0 <= j < fields.len() && fields[j] == names[1];
        assert(precedes(names[0], names[1]));
        precedes_is_irreflexive(names[0]);
        assert(bound[i].field != bound[j].field);
    }
    if exists|i: int, j: int|
        0 <= i < bound.len() && 0 <= j < bound.len() && (#[trigger] bound[i]).field != (
        #[trigger] bound[j]).field {
        let (i, j) = choose|i: int, j: int|
            0 <= i < bound.len() && 0 <= j < bound.len() && (#[trigger] bound[i]).field != (
            #[trigger] bound[j]).field;
        assert(fields[i] != fields[j]);
        assert(fields.contains(fields[i]) && fields.contains(fields[j]));
        assert(names.contains(fields[i]) && names.contains(fields[j]));
    }
    identity_is_first_name(best);
    let k = choose|k: int| 0 <= k < best.len() && first_name(best) == full_name(#[trigger] best[k]);
    assert(key.id == bound[k].container + "\u{1}"@ + bound[k].field);
    assert forall|b: int| 0 <= b < bound.len() implies !precedes(
        (#[trigger] bound[b]).container + "\u{1}"@ + bound[b].field,
        key.id,
    ) by {
        assert(!precedes(full_name(best[b]), first_name(best)));
    }
}

/// The values that count as shared are those of eight bytes or more that fields
/// of two containers hold: `fields` are the bound fields, with their schemas.
pub proof fn shared_values_are_counted(
    fields: Seq<(SchemaView, FieldView)>,
    paths: Seq<Text>,
    shared: Set<Text>,
)
    requires
        forall|v: Text| #[trigger]
            shared.contains(v) <==> byte_length(v) >= 8 && exists|i: int, j: int|
                0 <= i < j < fields.len() && (#[trigger] fields[i]).1.values.contains(v) && (
                #[trigger] fields[j]).1.values.contains(v),
    ensures
        candidate_of(
            Seq::new(fields.len(), |i: int| node_of(i as nat, fields[i].0, fields[i].1)),
            paths,
        ).shared_values == shared.len(),
{
    let best = Seq::new(fields.len(), |i: int| node_of(i as nat, fields[i].0, fields[i].1));
    assert forall|v: Text| shared_values(best).contains(v) <==> shared.contains(v) by {
        shared_values_are_in_two(best, v);
        if shared_values(best).contains(v) {
            let (i, j) = choose|i: int, j: int|
                0 <= i < j < best.len() && (#[trigger] best[i]).linkable.contains(v) && (
                #[trigger] best[j]).linkable.contains(v);
            assert(fields[i].1.values.contains(v) && fields[j].1.values.contains(v));
        }
        if shared.contains(v) {
            let (i, j) = choose|i: int, j: int|
                0 <= i < j < fields.len() && (#[trigger] fields[i]).1.values.contains(v) && (
                #[trigger] fields[j]).1.values.contains(v);
            assert(best[i].linkable.contains(v) && best[j].linkable.contains(v));
        }
    }
    assert(shared_values(best) =~= shared);
}

/// A field's values are mostly identifiers exactly when more than half of them
/// look like one.
pub proof fn mostly_is_more_than_half(values: Set<Text>)
    requires
        values.finite(),
    ensures
        mostly_ids(values) <==> exists|ids: Set<Text>|
            #[trigger] ids.subset_of(values) && (forall|v: Text|
                ids.contains(v) ==> looks_like_id(v)) && 2 * ids.len() > values.len(),
{
    let hits = values.filter(|v: Text| looks_like_id(v));
    assert(hits.subset_of(values));
    if exists|ids: Set<Text>|
        #[trigger] ids.subset_of(values) && (forall|v: Text| ids.contains(v) ==> looks_like_id(v))
            && 2 * ids.len() > values.len() {
        let ids = choose|ids: Set<Text>|
            #[trigger] ids.subset_of(values) && (forall|v: Text|
                ids.contains(v) ==> looks_like_id(v)) && 2 * ids.len() > values.len();
        assert(ids.subset_of(hits));
        vstd::set_lib::lemma_len_subset(ids, hits);
    }
}

proof fn id_nodes_are_counted(nodes: Seq<NodeView>)
    ensures
        id_nodes(nodes) == nodes.filter(|n: NodeView| n.id_shaped).len(),
    decreases nodes.len(),
{
    reveal(Seq::filter);
    if nodes.len() > 0 {
        id_nodes_are_counted(nodes.drop_last());
    }
}

/// A key has values that look like identifiers exactly when more than half of
/// its fields do. A field stands in its group for what was sampled of it.
pub proof fn keys_look_like_most_of_their_fields(
    best: Seq<NodeView>,
    paths: Seq<Text>,
    schema: SchemaView,
    field: FieldView,
    i: nat,
)
    ensures
        candidate_of(best, paths).id_shaped <==> 2 * best.filter(
            |n: NodeView| n.id_shaped,
        ).len() > best.len(),
        node_of(i, schema, field).id_shaped <==> mostly_ids(field.values),
        node_of(i, schema, field).name_key == lowered(field.name),
        node_of(i, schema, field).seen_in == field.seen_in,
        node_of(i, schema, field).distinct == field.distinct,
        node_of(i, schema, field).sampled_docs == schema.sampled_docs,
        forall|v: Text|
            node_of(i, schema, field).linkable.contains(v) <==> field.values.contains(v)
                && byte_length(v) >= 8,
{
    id_nodes_are_counted(best);
}

/// A name follows a convention exactly when it holds one of six words, wherever
/// in it.
pub proof fn conventions_are_six_words(a: Text, b: Text, name: Text)
    ensures
        hints_at_id(a + "correlation"@ + b),
        hints_at_id(a + "trace"@ + b),
        hints_at_id(a + "requestid"@ + b),
        hints_at_id(a + "conversation"@ + b),
        hints_at_id(a + "session"@ + b),
        hints_at_id(a + "flowid"@ + b),
        hints_at_id(name) ==> occurs(name, "correlation"@) || occurs(name, "trace"@) || occurs(
            name,
            "requestid"@,
        ) || occurs(name, "conversation"@) || occurs(name, "session"@) || occurs(name, "flowid"@),
{
    occurring_is_being_part(a, "correlation"@, b, name);
    occurring_is_being_part(a, "trace"@, b, name);
    occurring_is_being_part(a, "requestid"@, b, name);
    occurring_is_being_part(a, "conversation"@, b, name);
    occurring_is_being_part(a, "session"@, b, name);
    occurring_is_being_part(a, "flowid"@, b, name);
}

/// A key gives its reasons: that it is in several containers, or in one alone;
/// that values are shared, or that none is; that it has several names; that its
/// values look like identifiers, or vary too little; that its fields are often
/// missing; and that a name follows a convention. Each is given exactly where it
/// holds, and none stands there besides.
pub proof fn keys_give_their_reasons(merits: Merits)
    ensures
        ({
            let all = evidence_of(merits);
            let n = merits.reach;
            let shared = merits.shared_values;
            let status = below(merits.avg_distinct_ratio, of_ratio(15, 100));
            let sparse = below(merits.avg_fill, of_ratio(1, 2));
            &&& n > 1 ==> all.contains(
                EvidenceView {
                    good: true,
                    text: "present in "@ + decimal(n) + " containers"@,
                },
            )
            &&& n <= 1 ==> all.contains(
                EvidenceView {
                    good: false,
                    text: "only in one container — nothing to trace across"@,
                },
            )
            &&& shared > 0 ==> all.contains(
                EvidenceView {
                    good: true,
                    text: decimal(shared) + " values seen in more than one container"@,
                },
            )
            &&& shared == 0 && n > 1 ==> all.contains(
                EvidenceView {
                    good: false,
                    text: "no shared values in the sample — the link is unproven"@,
                },
            )
            &&& merits.names.len() > 1 ==> all.contains(
                EvidenceView {
                    good: true,
                    text: "same values under different names: "@ + joined(merits.names, ", "@),
                },
            )
            &&& merits.id_shaped ==> all.contains(
                EvidenceView { good: true, text: "values look like identifiers"@ },
            )
            &&& status ==> all.contains(
                EvidenceView {
                    good: false,
                    text: "only "@ + decimal(percent(merits.avg_distinct_ratio))
                        + "% distinct values — looks like a status, not an id"@,
                },
            )
            &&& sparse ==> all.contains(
                EvidenceView {
                    good: false,
                    text: "set on only "@ + decimal(percent(merits.avg_fill))
                        + "% of sampled documents"@,
                },
            )
            &&& merits.name_hint ==> all.contains(
                EvidenceView { good: true, text: "name follows a common id convention"@ },
            )
            &&& all.len() == 1 + one_if(shared > 0) + one_if(shared == 0 && n > 1) + one_if(
                merits.names.len() > 1,
            ) + one_if(merits.id_shaped) + one_if(status) + one_if(sparse) + one_if(
                merits.name_hint,
            )
        }),
{
    let n = merits.reach;
    let shared = merits.shared_values;
    let none = Seq::<EvidenceView>::empty();
    let t0 = "present in "@ + decimal(n) + " containers"@;
    let t1 = "only in one container — nothing to trace across"@;
    let t2 = decimal(shared) + " values seen in more than one container"@;
    let t3 = "no shared values in the sample — the link is unproven"@;
    let t4 = "same values under different names: "@ + joined(merits.names, ", "@);
    let t5 = "values look like identifiers"@;
    let t6 = "only "@ + decimal(percent(merits.avg_distinct_ratio))
        + "% distinct values — looks like a status, not an id"@;
    let t7 = "set on only "@ + decimal(percent(merits.avg_fill)) + "% of sampled documents"@;
    let t8 = "name follows a common id convention"@;
    let c0 = reason(n > 1, true, t0);
    let c1 = c0 + reason(n <= 1, false, t1);
    let c2 = c1 + reason(shared > 0, true, t2);
    let c3 = c2 + reason(shared == 0 && n > 1, false, t3);
    let c4 = c3 + reason(merits.names.len() > 1, true, t4);
    let c5 = c4 + reason(merits.id_shaped, true, t5);
    let c6 = c5 + reason(looks_like_status(merits), false, t6);
    let c7 = c6 + reason(is_sparse(merits), false, t7);
    let c8 = c7 + reason(merits.name_hint, true, t8);
    assert(evidence_of(merits) == c8);
    one_more_reason(none, n > 1, true, t0);
    assert(none + c0 =~= c0);
    one_more_reason(c0, n <= 1, false, t1);
    one_more_reason(c1, shared > 0, true, t2);
    one_more_reason(c2, shared == 0 && n > 1, false, t3);
    one_more_reason(c3, merits.names.len() > 1, true, t4);
    one_more_reason(c4, merits.id_shaped, true, t5);
    one_more_reason(c5, looks_like_status(merits), false, t6);
    one_more_reason(c6, is_sparse(merits), false, t7);
    one_more_reason(c7, merits.name_hint, true, t8);
}

proof fn one_more_reason(front: Seq<EvidenceView>, holds: bool, good: bool, text: Text)
    ensures
        ({
            let all = front + reason(holds, good, text);
            &&& all.len() == front.len() + one_if(holds)
            &&& holds ==> all.contains(EvidenceView { good, text })
            &&& forall|e: EvidenceView| #[trigger] front.contains(e) ==> all.contains(e)
        }),
{
    let all = front + reason(holds, good, text);
    if holds {
        assert(all[front.len() as int] == EvidenceView { good, text });
    }
    assert forall|e: EvidenceView| #[trigger] front.contains(e) implies all.contains(e) by {
        let k = choose|k: int| 0 <= k < front.len() && front[k] == e;
        assert(all[k] == e);
    }
}

/// One where `holds`, else none.
pub open spec fn one_if(holds: bool) -> int {
    if holds {
        1
    } else {
        0
    }
}

/// A key shows what was found of the fields that are bound: how many containers
/// it reaches, how many values they share, what they are called and whether one
/// of the names follows a convention; it is scored and reasoned from that.
pub proof fn keys_are_judged_by_their_fields(best: Seq<NodeView>, paths: Seq<Text>)
    ensures
        ({
            let key = candidate_of(best, paths);
            let merits = merits_of(best);
            &&& merits.reach == best.len()
            &&& merits.reach == key.bindings.len()
            &&& merits.shared_values == key.shared_values
            &&& merits.id_shaped == key.id_shaped
            &&& merits.avg_fill == key.avg_fill
            &&& merits.avg_distinct_ratio == key.avg_distinct_ratio
            &&& merits.name_hint <==> exists|i: int|
                0 <= i < best.len() && hints_at_id((#[trigger] best[i]).name_key)
            &&& forall|t: Text| #[trigger]
                merits.names.contains(t) <==> exists|i: int|
                    0 <= i < best.len() && (#[trigger] best[i]).field == t
            &&& key.score == score_of(merits)
            &&& key.evidence == evidence_of(merits)
        }),
{
    let fields = fields_of(best);
    let merits = merits_of(best);
    distinct_is_ascending(fields);
    assert forall|t: Text| #[trigger] merits.names.contains(t) <==> exists|i: int|
        0 <= i < best.len() && (#[trigger] best[i]).field == t by {
        if fields.contains(t) {
            let i = choose|i: int| 0 <= i < fields.len() && fields[i] == t;
            assert(best[i].field == t);
        }
        if exists|i: int| 0 <= i < best.len() && (#[trigger] best[i]).field == t {
            let i = choose|i: int| 0 <= i < best.len() && (#[trigger] best[i]).field == t;
            assert(fields[i] == t);
        }
    }
    if merits.name_hint {
        let i = choose|i: int| 0 <= i < best.len() && hints_at_id(#[trigger] best[i].name_key);
        assert(hints_at_id(best[i].name_key));
    }
}

/// What a key is worth for linking: three for each container beyond the first,
/// up to five of them; and where values are shared, four and three tenths for
/// each, up to ten.
pub open spec fn worth_of_links(reach: nat, shared: nat) -> Real {
    let far = if reach < 6 {
        reach
    } else {
        6
    };
    let many = if shared < 10 {
        shared
    } else {
        10
    };
    let start = of_count((3 * (far - 1)) as nat);
    if shared == 0 {
        start
    } else {
        sum(start, sum(of_count(4), product(of_count(many), of_ratio(3, 10))))
    }
}

/// A key's score adds up: what its links are worth, one and a half where its
/// values look like identifiers, five off where they vary too little, twice the
/// fraction of documents that have it, and at last one for its name.
pub proof fn scores_add_up(merits: Merits)
    requires
        merits.reach > 0,
    ensures
        ({
            let links = worth_of_links(merits.reach, merits.shared_values);
            let shaped = if merits.id_shaped {
                sum(links, of_ratio(3, 2))
            } else {
                links
            };
            let varied = if below(merits.avg_distinct_ratio, of_ratio(15, 100)) {
                sum(shaped, negative(of_count(5)))
            } else {
                shaped
            };
            let filled = sum(varied, product(merits.avg_fill, of_count(2)));
            &&& !merits.name_hint ==> score_of(merits) == filled
            &&& merits.name_hint ==> score_of(merits) == sum(filled, of_count(1))
        }),
{
}

} // verus!
