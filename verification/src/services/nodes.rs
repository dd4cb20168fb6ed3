//! Which fields of an account are the same identifier.
//!
//! This is decided from the data rather than from field names: fields in
//! different containers that carry *the same values* are treated as the same
//! identifier even when they're spelled differently (`orderId` here,
//! `entityId` there).

use crate::services::cosmos::{
    container_path, is_system_field, system_field, ContainerSchema, FieldInfo, FieldView,
    SchemaView,
};
use crate::services::grouping::{
    adjacent, connected, group_is_what_links_connect, groups, groups_upto, is_way, members,
    merged_upto, representatives, Dsu,
};
use crate::services::shapes::{id_shaped, looks_like_id};
use crate::text::{byte_len, byte_length, lowered, same, to_lower, Text};
use crate::text_set::TextSet;
use vstd::prelude::*;

verus! {

/// How many values two fields must share before they're taken to be the same
/// identifier. Two is enough to be well past coincidence for long values.
pub const LINK_MIN_SHARED: usize = 2;

/// Values shorter than this are too collision-prone to link on: `"1"` and
/// `"ok"` appear everywhere and mean nothing.
pub const LINK_MIN_LEN: usize = 8;

// ── Fields that may carry a key ──────────────────────────────────────────

/// A field of one container that may carry a key.
pub struct Node {
    pub schema: usize,
    pub container: String,
    pub field: String,
    pub name_key: String,
    pub seen_in: usize,
    pub sampled_docs: usize,
    pub distinct: usize,
    pub linkable: TextSet,
    pub id_shaped: bool,
}

/// A field of one container that may carry a key, as contracts speak of it.
pub struct NodeView {
    /// The number of the schema it belongs to.
    pub schema: nat,
    pub container: Text,
    pub field: Text,
    /// The lowercased field path.
    pub name_key: Text,
    pub seen_in: nat,
    pub sampled_docs: nat,
    pub distinct: nat,
    /// Values long enough to be worth linking on.
    pub linkable: Set<Text>,
    /// Most of its values look like identifiers.
    pub id_shaped: bool,
}

impl View for Node {
    type V = NodeView;

    open spec fn view(&self) -> NodeView {
        NodeView {
            schema: self.schema as nat,
            container: self.container@,
            field: self.field@,
            name_key: self.name_key@,
            seen_in: self.seen_in as nat,
            sampled_docs: self.sampled_docs as nat,
            distinct: self.distinct as nat,
            linkable: self.linkable@,
            id_shaped: self.id_shaped,
        }
    }
}

impl DeepView for Node {
    type V = NodeView;

    open spec fn deep_view(&self) -> NodeView {
        self@
    }
}

impl Clone for Node {
    fn clone(&self) -> (out: Self)
        ensures
            out@ == self@,
    {
        Node {
            schema: self.schema,
            container: self.container.clone(),
            field: self.field.clone(),
            name_key: self.name_key.clone(),
            seen_in: self.seen_in,
            sampled_docs: self.sampled_docs,
            distinct: self.distinct,
            linkable: self.linkable.clone(),
            id_shaped: self.id_shaped,
        }
    }
}

/// Whether more than half of `values` look like identifiers.
pub open spec fn mostly_ids(values: Set<Text>) -> bool {
    2 * values.filter(|v: Text| looks_like_id(v)).len() > values.len()
}

pub(crate) fn are_mostly_ids(values: &TextSet) -> (r: bool)
    ensures
        r == mostly_ids(values@),
{
    let test = |v: &str| -> (r: bool)
        ensures
            r == looks_like_id(v@),
        { id_shaped(v) };
    let id_like = values.count_where(test, Ghost(|v: Text| looks_like_id(v)));
    id_like > values.len() - id_like
}

/// Whether a field can carry a key at all, or an error flag: it holds texts or
/// numbers, and is not metadata of the store.
pub open spec fn is_offered(field: FieldView) -> bool {
    !is_system_field(field.name) && field.is_scalar()
}

pub(crate) fn offered(field: &FieldInfo) -> (r: bool)
    ensures
        r == is_offered(field@),
{
    !system_field(field.name.as_str()) && field.is_scalar()
}

/// What is known of the field `field` of the schema with number `idx`.
pub open spec fn node_of(idx: nat, schema: SchemaView, field: FieldView) -> NodeView {
    NodeView {
        schema: idx,
        container: container_path(schema.database, schema.container),
        field: field.name,
        name_key: lowered(field.name),
        seen_in: field.seen_in,
        sampled_docs: schema.sampled_docs,
        distinct: field.distinct,
        linkable: field.values.filter(|v: Text| byte_length(v) >= LINK_MIN_LEN),
        id_shaped: mostly_ids(field.values),
    }
}

/// The fields among `fields` of a schema that may carry a key.
pub open spec fn nodes_among(idx: nat, schema: SchemaView, fields: Seq<FieldView>) -> Seq<NodeView>
    decreases fields.len(),
{
    if fields.len() == 0 {
        Seq::empty()
    } else {
        let front = nodes_among(idx, schema, fields.drop_last());
        if is_offered(fields.last()) {
            front.push(node_of(idx, schema, fields.last()))
        } else {
            front
        }
    }
}

/// The fields of all schemas that may carry a key.
pub open spec fn nodes_of(schemas: Seq<SchemaView>) -> Seq<NodeView>
    decreases schemas.len(),
{
    if schemas.len() == 0 {
        Seq::empty()
    } else {
        let last = schemas.last();
        nodes_of(schemas.drop_last()) + nodes_among(
            (schemas.len() - 1) as nat,
            last,
            last.fields,
        )
    }
}

fn node_at(idx: usize, schema: &ContainerSchema, field: &FieldInfo) -> (out: Node)
    ensures
        out@ == node_of(idx as nat, schema@, field@),
{
    let long = |v: &str| -> (r: bool)
        ensures
            r == (byte_length(v@) >= LINK_MIN_LEN),
        { byte_len(v) >= LINK_MIN_LEN };
    Node {
        schema: idx,
        container: schema.path(),
        field: field.name.clone(),
        name_key: to_lower(field.name.as_str()),
        seen_in: field.seen_in,
        sampled_docs: schema.sampled_docs,
        distinct: field.distinct,
        linkable: field.values.keep_where(
            long,
            Ghost(|v: Text| byte_length(v) >= LINK_MIN_LEN),
        ),
        id_shaped: are_mostly_ids(&field.values),
    }
}

/// The fields of all schemas that may carry a key.
pub(crate) fn find_nodes(schemas: &Vec<ContainerSchema>) -> (out: Vec<Node>)
    ensures
        out.deep_view() == nodes_of(schemas.deep_view()),
{
    let ghost all = schemas.deep_view();
    let mut out: Vec<Node> = Vec::new();
    let mut i: usize = 0;
    assert(out.deep_view() =~= nodes_of(all.take(0)));
    while i < schemas.len()
        invariant
            all == schemas.deep_view(),
            i <= schemas@.len(),
            out.deep_view() == nodes_of(all.take(i as int)),
        decreases schemas.len() - i,
    {
        let schema = &schemas[i];
        let ghost before = out.deep_view();
        let ghost fields = schema.fields.deep_view();
        let mut k: usize = 0;
        assert(before + nodes_among(i as nat, schema@, fields.take(0)) =~= before);
        while k < schema.fields.len()
            invariant
                k <= schema.fields@.len(),
                fields == schema.fields.deep_view(),
                out.deep_view() == before + nodes_among(i as nat, schema@, fields.take(k as int)),
            decreases schema.fields.len() - k,
        {
            let field = &schema.fields[k];
            assert(fields.take(k + 1).drop_last() =~= fields.take(k as int));
            assert(fields.take(k + 1).last() == field@);
            if offered(field) {
                let ghost here = out.deep_view();
                let node = node_at(i, schema, field);
                let ghost view = node@;
                out.push(node);
                assert(out.deep_view() =~= here.push(view));
                assert(out.deep_view() =~= before + nodes_among(
                    i as nat,
                    schema@,
                    fields.take(k + 1),
                ));
            }
            k = k + 1;
        }
        assert(fields.take(k as int) =~= fields);
        assert(all.take(i + 1).drop_last() =~= all.take(i as int));
        assert(all.take(i + 1).last() == schema@);
        i = i + 1;
    }
    assert(all.take(i as int) =~= all);
    out
}

// ── Which fields are the same identifier ─────────────────────────────────

/// Whether two fields are taken to be the same identifier: same name across
/// containers, or, regardless of name, enough shared values to rule out
/// coincidence. Only ever across containers: two fields of one document
/// sharing values (`orderId`, `parentOrderId`) are related, but they are not
/// one key.
pub open spec fn linked(a: NodeView, b: NodeView) -> bool {
    &&& a.schema != b.schema
    &&& a.name_key == b.name_key || a.linkable.intersect(b.linkable).len() >= LINK_MIN_SHARED
}

/// Which of `nodes`, by number, are taken to be the same identifier.
pub open spec fn links(nodes: Seq<NodeView>) -> spec_fn(int, int) -> bool {
    |i: int, j: int| linked(nodes[i], nodes[j])
}

fn are_linked(a: &Node, b: &Node) -> (r: bool)
    ensures
        r == linked(a@, b@),
{
    a.schema != b.schema && (same(a.name_key.as_str(), b.name_key.as_str()) || a.linkable.shared_with(
        &b.linkable,
    ) >= LINK_MIN_SHARED)
}

fn link_nodes(nodes: &Vec<Node>) -> (out: Dsu)
    ensures
        out@ == representatives(nodes@.len(), links(nodes.deep_view())),
        out@.len() == nodes@.len(),
{
    let ghost n = nodes@.len();
    let ghost link = links(nodes.deep_view());
    let mut dsu = Dsu::new(nodes.len());
    let mut i: usize = 0;
    while i < nodes.len()
        invariant
            n == nodes@.len(),
            link == links(nodes.deep_view()),
            i <= n,
            dsu@.len() == n,
            dsu@ == (if i == 0 {
                Seq::new(n, |k: int| k as nat)
            } else {
                merged_upto(n, link, (i - 1) as nat, n)
            }),
        decreases n - i,
    {
        let mut j: usize = i + 1;
        while j < nodes.len()
            invariant
                n == nodes@.len(),
                link == links(nodes.deep_view()),
                i < j <= n,
                dsu@.len() == n,
                dsu@ == merged_upto(n, link, i as nat, j as nat),
            decreases n - j,
        {
            assert(nodes.deep_view()[i as int] == nodes@[i as int]@);
            assert(nodes.deep_view()[j as int] == nodes@[j as int]@);
            if are_linked(&nodes[i], &nodes[j]) {
                dsu.union(i, j);
            }
            j = j + 1;
        }
        i = i + 1;
    }
    assert(n == 0 ==> dsu@ =~= Seq::<nat>::empty());
    dsu
}

fn members_of(rep: &Vec<usize>, r: usize) -> (out: Vec<usize>)
    ensures
        numbers(out@) == members(numbers(rep@), r as nat, rep@.len()),
{
    let ghost all = numbers(rep@);
    let mut out: Vec<usize> = Vec::new();
    let mut i: usize = 0;
    assert(numbers(out@) =~= members(all, r as nat, 0));
    while i < rep.len()
        invariant
            all == numbers(rep@),
            i <= rep@.len(),
            numbers(out@) == members(all, r as nat, i as nat),
        decreases rep.len() - i,
    {
        if rep[i] == r {
            let ghost before = numbers(out@);
            out.push(i);
            assert(numbers(out@) =~= before.push(i as nat));
        }
        i = i + 1;
    }
    out
}

pub(crate) open spec fn numbers(s: Seq<usize>) -> Seq<nat> {
    Seq::new(s.len(), |i: int| s[i] as nat)
}

pub(crate) open spec fn number_groups(s: Seq<Vec<usize>>) -> Seq<Seq<nat>> {
    Seq::new(s.len(), |i: int| numbers(s[i]@))
}

/// The groups of nodes that are taken to be the same identifier, by number.
pub(crate) fn group_nodes(nodes: &Vec<Node>) -> (out: Vec<Vec<usize>>)
    ensures
        number_groups(out@) == groups(nodes@.len(), links(nodes.deep_view())),
{
    let mut dsu = link_nodes(nodes);
    let ghost all = dsu@;
    let mut rep: Vec<usize> = Vec::new();
    let mut i: usize = 0;
    while i < nodes.len()
        invariant
            dsu@ == all,
            all.len() == nodes@.len(),
            i <= nodes@.len(),
            rep@.len() == i,
            forall|k: int| 0 <= k < i ==> #[trigger] rep@[k] == all[k],
        decreases nodes.len() - i,
    {
        let r = dsu.find(i);
        rep.push(r);
        i = i + 1;
    }
    assert(numbers(rep@) =~= all);

    let mut out: Vec<Vec<usize>> = Vec::new();
    let mut r: usize = 0;
    assert(number_groups(out@) =~= groups_upto(all, 0));
    while r < rep.len()
        invariant
            numbers(rep@) == all,
            rep@.len() == all.len(),
            r <= rep@.len(),
            number_groups(out@) == groups_upto(all, r as nat),
        decreases rep.len() - r,
    {
        let group = members_of(&rep, r);
        assert(numbers(group@).len() == group@.len());
        if group.len() > 0 {
            let ghost before = number_groups(out@);
            let ghost view = numbers(group@);
            out.push(group);
            assert(number_groups(out@) =~= before.push(view));
        }
        r = r + 1;
    }
    out
}

// ── What the links amount to ─────────────────────────────────────────────

/// It makes no difference which of two fields comes first.
pub proof fn linked_either_way(a: NodeView, b: NodeView)
    ensures
        linked(a, b) == linked(b, a),
{
    assert(a.linkable.intersect(b.linkable) =~= b.linkable.intersect(a.linkable));
}

proof fn adjacent_is_linked(nodes: Seq<NodeView>, i: int, j: int)
    ensures
        adjacent(links(nodes), i, j) <==> i != j && linked(nodes[i], nodes[j]),
{
    linked_either_way(nodes[i], nodes[j]);
}

/// Fields of different containers that go by the same name, whatever its case,
/// are one key.
pub proof fn same_name_is_one_key(nodes: Seq<NodeView>, i: int, j: int)
    requires
        0 <= i < nodes.len(),
        0 <= j < nodes.len(),
        nodes[i].schema != nodes[j].schema,
        nodes[i].name_key == nodes[j].name_key,
    ensures
        representatives(nodes.len(), links(nodes))[i] == representatives(
            nodes.len(),
            links(nodes),
        )[j],
{
    let way = seq![i, j];
    adjacent_is_linked(nodes, i, j);
    assert(is_way(nodes.len(), links(nodes), way));
    assert(way.first() == i && way.last() == j);
    group_is_what_links_connect(nodes.len(), links(nodes), i, j);
}

/// Fields of different containers with enough long values in common are one
/// key, whatever they are called.
pub proof fn shared_values_are_one_key(nodes: Seq<NodeView>, i: int, j: int)
    requires
        0 <= i < nodes.len(),
        0 <= j < nodes.len(),
        nodes[i].schema != nodes[j].schema,
        nodes[i].linkable.intersect(nodes[j].linkable).len() >= LINK_MIN_SHARED,
    ensures
        representatives(nodes.len(), links(nodes))[i] == representatives(
            nodes.len(),
            links(nodes),
        )[j],
{
    let way = seq![i, j];
    adjacent_is_linked(nodes, i, j);
    assert(is_way(nodes.len(), links(nodes), way));
    assert(way.first() == i && way.last() == j);
    group_is_what_links_connect(nodes.len(), links(nodes), i, j);
}

/// Fields of one container are never linked to each other: with a single
/// container, every field is a key of its own, whatever values it shares.
pub proof fn one_container_links_nothing(nodes: Seq<NodeView>, i: int, j: int)
    requires
        0 <= i < nodes.len(),
        0 <= j < nodes.len(),
        forall|a: int, b: int|
            0 <= a < nodes.len() && 0 <= b < nodes.len() ==> (#[trigger] nodes[a]).schema == (
            #[trigger] nodes[b]).schema,
    ensures
        representatives(nodes.len(), links(nodes))[i] == representatives(
            nodes.len(),
            links(nodes),
        )[j] <==> i == j,
{
    let n = nodes.len();
    let link = links(nodes);
    group_is_what_links_connect(n, link, i, j);
    if connected(n, link, i, j) {
        let way = choose|way: Seq<int>| #[trigger]
            is_way(n, link, way) && way.first() == i && way.last() == j;
        if way.len() > 1 {
            assert(adjacent(link, way[0], way[1]));
            adjacent_is_linked(nodes, way[0], way[1]);
            assert(nodes[way[0]].schema == nodes[way[1]].schema);
        }
    }
}

} // verus!
