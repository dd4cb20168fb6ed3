//! The candidates for the key: what a group of fields that are one identifier
//! amounts to, and how groups rank.

use crate::order::{
    arrange, arranged, arranged_in_order, arranged_is_permutation, ascending, distinct,
    distinct_is_ascending, distinct_of, in_order, is_order, Arrange,
};
use crate::services::cosmos::{
    container_path, find_fraction, fraction, ContainerSchema, SchemaView,
};
use crate::services::grouping::{groups, groups_partition};
use crate::services::nodes::{
    find_nodes, group_nodes, links, nodes_of, number_groups, numbers, Node, NodeView,
};
use crate::services::shapes::{hints_at_id, name_suggests_identifier};
use crate::single::{
    below, below_is_an_order, few_is_less_than_half, negative, of_count, of_ratio, percent, product,
    quotient, sum, tame, zero, Real, Single,
};
use crate::text::{
    byte_len, byte_length, concat, copies, count, decimal, is_before, is_listed, join, joined,
    names_in_turn, number, precedes, precedes_is_irreflexive, same, Text,
};
use crate::text_set::TextSet;
use vstd::prelude::*;

verus! {

/// One container's participation in a key: which field carries it there.
#[derive(Debug, PartialEq)]
pub struct Binding {
    pub container: String,
    pub field: String,
    pub seen_in: usize,
    pub sampled_docs: usize,
    pub distinct: usize,
}

/// A binding, as contracts speak of it.
pub struct BindingView {
    pub container: Text,
    pub field: Text,
    pub seen_in: nat,
    pub sampled_docs: nat,
    pub distinct: nat,
}

impl View for Binding {
    type V = BindingView;

    open spec fn view(&self) -> BindingView {
        BindingView {
            container: self.container@,
            field: self.field@,
            seen_in: self.seen_in as nat,
            sampled_docs: self.sampled_docs as nat,
            distinct: self.distinct as nat,
        }
    }
}

impl DeepView for Binding {
    type V = BindingView;

    open spec fn deep_view(&self) -> BindingView {
        self@
    }
}

impl Clone for Binding {
    fn clone(&self) -> (out: Self)
        ensures
            out@ == self@,
    {
        Binding {
            container: self.container.clone(),
            field: self.field.clone(),
            seen_in: self.seen_in,
            sampled_docs: self.sampled_docs,
            distinct: self.distinct,
        }
    }
}

// ── What a group of fields amounts to ────────────────────────────────────

/// A reason to trust, or distrust, a candidate, shown to the user so the
/// ranking is arguable rather than magic.
#[derive(Debug, PartialEq)]
pub struct Evidence {
    pub good: bool,
    pub text: String,
}

/// A reason to trust or distrust a candidate, as contracts speak of it.
pub struct EvidenceView {
    pub good: bool,
    pub text: Text,
}

impl View for Evidence {
    type V = EvidenceView;

    open spec fn view(&self) -> EvidenceView {
        EvidenceView { good: self.good, text: self.text@ }
    }
}

impl DeepView for Evidence {
    type V = EvidenceView;

    open spec fn deep_view(&self) -> EvidenceView {
        self@
    }
}

impl Clone for Evidence {
    fn clone(&self) -> (out: Self)
        ensures
            out@ == self@,
    {
        Evidence { good: self.good, text: self.text.clone() }
    }
}

/// A field, under one name or several, whose value may tie the steps of one
/// flow together.
#[derive(Debug, PartialEq)]
pub struct KeyCandidate {
    /// Stable identity of the group across rescans.
    pub id: String,
    pub label: String,
    pub bindings: Vec<Binding>,
    /// Containers where nothing in this group was sampled.
    pub missing: Vec<String>,
    /// Distinct values seen in more than one container: direct proof that the
    /// field links documents rather than just existing in several places.
    pub shared_values: usize,
    /// The group spans more than one spelling, so only the values connect it.
    pub cross_named: bool,
    pub id_shaped: bool,
    pub avg_fill: Single,
    pub avg_distinct_ratio: Single,
    pub score: Single,
    pub evidence: Vec<Evidence>,
}

/// A candidate for the key, as contracts speak of it.
pub struct KeyView {
    pub id: Text,
    pub label: Text,
    pub bindings: Seq<BindingView>,
    pub missing: Seq<Text>,
    pub shared_values: nat,
    pub cross_named: bool,
    pub id_shaped: bool,
    pub avg_fill: Real,
    pub avg_distinct_ratio: Real,
    pub score: Real,
    pub evidence: Seq<EvidenceView>,
}

impl View for KeyCandidate {
    type V = KeyView;

    open spec fn view(&self) -> KeyView {
        KeyView {
            id: self.id@,
            label: self.label@,
            bindings: self.bindings.deep_view(),
            missing: self.missing.deep_view(),
            shared_values: self.shared_values as nat,
            cross_named: self.cross_named,
            id_shaped: self.id_shaped,
            avg_fill: self.avg_fill@,
            avg_distinct_ratio: self.avg_distinct_ratio@,
            score: self.score@,
            evidence: self.evidence.deep_view(),
        }
    }
}

impl DeepView for KeyCandidate {
    type V = KeyView;

    open spec fn deep_view(&self) -> KeyView {
        self@
    }
}

fn copy_bindings(list: &Vec<Binding>) -> (out: Vec<Binding>)
    ensures
        out.deep_view() == list.deep_view(),
{
    let mut out: Vec<Binding> = Vec::new();
    let mut i: usize = 0;
    while i < list.len()
        invariant
            i <= list@.len(),
            out@.len() == i,
            forall|j: int| 0 <= j < i ==> (#[trigger] out@[j])@ == list@[j]@,
        decreases list.len() - i,
    {
        out.push(list[i].clone());
        i = i + 1;
    }
    assert(out.deep_view() =~= list.deep_view());
    out
}

fn copy_evidence(list: &Vec<Evidence>) -> (out: Vec<Evidence>)
    ensures
        out.deep_view() == list.deep_view(),
{
    let mut out: Vec<Evidence> = Vec::new();
    let mut i: usize = 0;
    while i < list.len()
        invariant
            i <= list@.len(),
            out@.len() == i,
            forall|j: int| 0 <= j < i ==> (#[trigger] out@[j])@ == list@[j]@,
        decreases list.len() - i,
    {
        out.push(list[i].clone());
        i = i + 1;
    }
    assert(out.deep_view() =~= list.deep_view());
    out
}

impl Clone for KeyCandidate {
    fn clone(&self) -> (out: Self)
        ensures
            out@ == self@,
    {
        KeyCandidate {
            id: self.id.clone(),
            label: self.label.clone(),
            bindings: copy_bindings(&self.bindings),
            missing: copies(&self.missing),
            shared_values: self.shared_values,
            cross_named: self.cross_named,
            id_shaped: self.id_shaped,
            avg_fill: self.avg_fill,
            avg_distinct_ratio: self.avg_distinct_ratio,
            score: self.score,
            evidence: copy_evidence(&self.evidence),
        }
    }
}

/// The first binding of `bindings` for `container`.
pub open spec fn first_binding(bindings: Seq<BindingView>, container: Text) -> Option<BindingView>
    decreases bindings.len(),
{
    if bindings.len() == 0 {
        None
    } else if bindings[0].container == container {
        Some(bindings[0])
    } else {
        first_binding(bindings.drop_first(), container)
    }
}

impl KeyCandidate {
    /// The field path carrying this key in a given container, if any.
    pub fn binding_for(&self, container: &str) -> (out: Option<&Binding>)
        ensures
            out.deep_view() == first_binding(self@.bindings, container@),
    {
        let ghost all = self@.bindings;
        let mut i: usize = 0;
        assert(all.skip(0) =~= all);
        while i < self.bindings.len()
            invariant
                all == self.bindings.deep_view(),
                i <= self.bindings@.len(),
                first_binding(all, container@) == first_binding(all.skip(i as int), container@),
            decreases self.bindings.len() - i,
        {
            assert(all.skip(i as int)[0] == self.bindings@[i as int]@);
            assert(all.skip(i as int).drop_first() =~= all.skip(i + 1));
            if same(self.bindings[i].container.as_str(), container) {
                return Some(&self.bindings[i]);
            }
            i = i + 1;
        }
        None
    }
}

/// Whether `a` is more selective than `b`: more distinct values, or as many of
/// them in more documents.
pub open spec fn more_selective(a: NodeView, b: NodeView) -> bool {
    a.distinct > b.distinct || (a.distinct == b.distinct && a.seen_in > b.seen_in)
}

/// The most selective of the fields that `container` contributes to a group,
/// the first of them where several are.
pub open spec fn best_in(nodes: Seq<NodeView>, container: Text) -> Option<NodeView>
    decreases nodes.len(),
{
    if nodes.len() == 0 {
        None
    } else {
        let front = best_in(nodes.drop_last(), container);
        let last = nodes.last();
        if last.container != container {
            front
        } else {
            match front {
                Some(best) if !more_selective(last, best) => front,
                _ => Some(last),
            }
        }
    }
}

/// The containers of `nodes`.
pub open spec fn containers_of(nodes: Seq<NodeView>) -> Seq<Text> {
    Seq::new(nodes.len(), |i: int| nodes[i].container)
}

/// The field paths of `nodes`.
pub open spec fn fields_of(nodes: Seq<NodeView>) -> Seq<Text> {
    Seq::new(nodes.len(), |i: int| nodes[i].field)
}

/// One field for each container of a group, by container.
pub open spec fn best_nodes(nodes: Seq<NodeView>) -> Seq<NodeView> {
    let containers = distinct(containers_of(nodes));
    Seq::new(containers.len(), |i: int| best_in(nodes, containers[i])->0)
}

/// The values of all of `nodes`.
pub open spec fn all_values(nodes: Seq<NodeView>) -> Set<Text>
    decreases nodes.len(),
{
    if nodes.len() == 0 {
        Set::empty()
    } else {
        all_values(nodes.drop_last()).union(nodes.last().linkable)
    }
}

/// The values that more than one of `nodes` carries.
pub open spec fn shared_values(nodes: Seq<NodeView>) -> Set<Text>
    decreases nodes.len(),
{
    if nodes.len() == 0 {
        Set::empty()
    } else {
        let front = nodes.drop_last();
        shared_values(front).union(nodes.last().linkable.intersect(all_values(front)))
    }
}

/// How many of `nodes` spell their field `name`.
pub open spec fn spelled(nodes: Seq<NodeView>, name: Text) -> nat
    decreases nodes.len(),
{
    if nodes.len() == 0 {
        0
    } else if nodes.last().field == name {
        spelled(nodes.drop_last(), name) + 1
    } else {
        spelled(nodes.drop_last(), name)
    }
}

/// The name among `names` that most of `nodes` use, the shortest of those, the
/// last of those.
pub open spec fn common_name(nodes: Seq<NodeView>, names: Seq<Text>) -> Text
    decreases names.len(),
{
    if names.len() == 0 {
        Seq::empty()
    } else if names.len() == 1 {
        names[0]
    } else {
        let front = common_name(nodes, names.drop_last());
        let last = names.last();
        if spelled(nodes, last) > spelled(nodes, front) || (spelled(nodes, last) == spelled(
            nodes,
            front,
        ) && byte_length(last) <= byte_length(front)) {
            last
        } else {
            front
        }
    }
}

/// A field together with its container.
pub open spec fn full_name(node: NodeView) -> Text {
    node.container + "\u{1}"@ + node.field
}

/// The first of the full names of `nodes` in the alphabet.
pub open spec fn first_name(nodes: Seq<NodeView>) -> Text
    decreases nodes.len(),
{
    if nodes.len() == 0 {
        Seq::empty()
    } else if nodes.len() == 1 {
        full_name(nodes[0])
    } else {
        let front = first_name(nodes.drop_last());
        if precedes(full_name(nodes.last()), front) {
            full_name(nodes.last())
        } else {
            front
        }
    }
}

/// How many of `nodes` have values that look like identifiers.
pub open spec fn id_nodes(nodes: Seq<NodeView>) -> nat
    decreases nodes.len(),
{
    if nodes.len() == 0 {
        0
    } else {
        id_nodes(nodes.drop_last()) + (if nodes.last().id_shaped {
            1nat
        } else {
            0nat
        })
    }
}

/// The binding that a field makes.
pub open spec fn binding_of(node: NodeView) -> BindingView {
    BindingView {
        container: node.container,
        field: node.field,
        seen_in: node.seen_in,
        sampled_docs: node.sampled_docs,
        distinct: node.distinct,
    }
}

/// Those of `paths` that are not among `containers`.
pub open spec fn left_out(paths: Seq<Text>, containers: Seq<Text>) -> Seq<Text>
    decreases paths.len(),
{
    if paths.len() == 0 {
        Seq::empty()
    } else if containers.contains(paths.last()) {
        left_out(paths.drop_last(), containers)
    } else {
        left_out(paths.drop_last(), containers).push(paths.last())
    }
}

/// The sum of the fractions of documents that carry each of `nodes`.
pub open spec fn total_fill(nodes: Seq<NodeView>) -> Real
    decreases nodes.len(),
{
    if nodes.len() == 0 {
        zero()
    } else {
        sum(
            total_fill(nodes.drop_last()),
            fraction(nodes.last().seen_in, nodes.last().sampled_docs),
        )
    }
}

/// The sum of the fractions of distinct values of each of `nodes`.
pub open spec fn total_distinct(nodes: Seq<NodeView>) -> Real
    decreases nodes.len(),
{
    if nodes.len() == 0 {
        zero()
    } else {
        sum(
            total_distinct(nodes.drop_last()),
            fraction(nodes.last().distinct, nodes.last().seen_in),
        )
    }
}

/// What one of `n` things has of `total` on average.
pub open spec fn average(total: Real, n: nat) -> Real {
    quotient(
        total,
        of_count(
            if n == 0 {
                1
            } else {
                n
            },
        ),
    )
}

/// What is known of a group, from which it is judged.
pub struct Merits {
    /// How many containers it reaches.
    pub reach: nat,
    pub shared_values: nat,
    /// Its spellings.
    pub names: Seq<Text>,
    pub id_shaped: bool,
    /// One of its names follows a convention for identifiers.
    pub name_hint: bool,
    pub avg_fill: Real,
    pub avg_distinct_ratio: Real,
}

/// What is known of the group with the fields `best`, one for each container.
pub open spec fn merits_of(best: Seq<NodeView>) -> Merits {
    Merits {
        reach: best.len(),
        shared_values: shared_values(best).len(),
        names: distinct(fields_of(best)),
        id_shaped: 2 * id_nodes(best) > best.len(),
        name_hint: exists|i: int| 0 <= i < best.len() && hints_at_id(#[trigger] best[i].name_key),
        avg_fill: average(total_fill(best), best.len()),
        avg_distinct_ratio: average(total_distinct(best), best.len()),
    }
}

/// Whether the values of a group repeat too much: a field with a handful of
/// repeated values is a status, not an identity.
pub open spec fn looks_like_status(merits: Merits) -> bool {
    below(merits.avg_distinct_ratio, of_ratio(15, 100))
}

/// Whether the fields of a group are missing from most documents.
pub open spec fn is_sparse(merits: Merits) -> bool {
    below(merits.avg_fill, of_ratio(1, 2))
}

/// What a group is worth for the containers it reaches, up to six: a key that
/// only exists in one place cannot trace anything.
pub open spec fn reach_points(reach: nat) -> Real {
    if reach == 0 {
        negative(of_count(3))
    } else if reach <= 6 {
        of_count((3 * (reach - 1)) as nat)
    } else {
        of_count(15)
    }
}

/// What a group is worth for the values seen in more than one container, the
/// one piece of hard proof that it links.
pub open spec fn shared_points(shared: nat) -> Real {
    sum(
        of_count(4),
        product(
            of_count(
                if shared < 10 {
                    shared
                } else {
                    10
                },
            ),
            of_ratio(3, 10),
        ),
    )
}

/// What a group is worth for its reach and for the values it shares.
pub open spec fn linking_score(merits: Merits) -> Real {
    let start = reach_points(merits.reach);
    if merits.shared_values > 0 {
        sum(start, shared_points(merits.shared_values))
    } else {
        start
    }
}

/// What a group is worth once it is also looked at whether its values look like
/// identifiers and vary as identifiers do.
pub open spec fn shape_score(merits: Merits) -> Real {
    let start = linking_score(merits);
    let shaped = if merits.id_shaped {
        sum(start, of_ratio(3, 2))
    } else {
        start
    };
    if looks_like_status(merits) {
        sum(shaped, negative(of_count(5)))
    } else {
        shaped
    }
}

/// What a group is worth. Naming is the weakest signal, deliberately: naming
/// conventions are a hint, never the reason a candidate wins.
pub open spec fn score_of(merits: Merits) -> Real {
    let filled = sum(shape_score(merits), product(merits.avg_fill, of_count(2)));
    if merits.name_hint {
        sum(filled, of_count(1))
    } else {
        filled
    }
}

/// One reason, if `holds`.
pub open spec fn reason(holds: bool, good: bool, text: Text) -> Seq<EvidenceView> {
    if holds {
        seq![EvidenceView { good, text }]
    } else {
        Seq::empty()
    }
}

/// The reasons to trust or distrust a group, the strongest first: that it
/// reaches several containers, that values prove the link, that the values look
/// like identifiers and vary as identifiers do, that the fields are filled, and
/// last what they are called.
pub open spec fn evidence_of(merits: Merits) -> Seq<EvidenceView> {
    let reach = merits.reach;
    reason(reach > 1, true, "present in "@ + decimal(reach) + " containers"@) + reason(
        reach <= 1,
        false,
        "only in one container — nothing to trace across"@,
    ) + reason(
        merits.shared_values > 0,
        true,
        decimal(merits.shared_values) + " values seen in more than one container"@,
    ) + reason(
        merits.shared_values == 0 && reach > 1,
        false,
        "no shared values in the sample — the link is unproven"@,
    ) + reason(
        merits.names.len() > 1,
        true,
        "same values under different names: "@ + joined(merits.names, ", "@),
    ) + reason(merits.id_shaped, true, "values look like identifiers"@) + reason(
        looks_like_status(merits),
        false,
        "only "@ + decimal(percent(merits.avg_distinct_ratio))
            + "% distinct values — looks like a status, not an id"@,
    ) + reason(
        is_sparse(merits),
        false,
        "set on only "@ + decimal(percent(merits.avg_fill)) + "% of sampled documents"@,
    ) + reason(merits.name_hint, true, "name follows a common id convention"@)
}

/// The candidate that the fields `best`, one for each container, make in an
/// account with the containers `all_paths`.
pub open spec fn candidate_of(best: Seq<NodeView>, all_paths: Seq<Text>) -> KeyView {
    let merits = merits_of(best);
    KeyView {
        id: first_name(best),
        label: common_name(best, merits.names),
        bindings: Seq::new(best.len(), |i: int| binding_of(best[i])),
        missing: left_out(all_paths, containers_of(best)),
        shared_values: merits.shared_values,
        cross_named: merits.names.len() > 1,
        id_shaped: merits.id_shaped,
        avg_fill: merits.avg_fill,
        avg_distinct_ratio: merits.avg_distinct_ratio,
        score: score_of(merits),
        evidence: evidence_of(merits),
    }
}

/// The nodes with the numbers `members`.
pub open spec fn nodes_at(nodes: Seq<NodeView>, members: Seq<nat>) -> Seq<NodeView> {
    Seq::new(members.len(), |i: int| nodes[members[i] as int])
}

/// How the containers of `schemas` are named.
pub open spec fn paths_of(schemas: Seq<SchemaView>) -> Seq<Text> {
    Seq::new(
        schemas.len(),
        |i: int| container_path(schemas[i].database, schemas[i].container),
    )
}

/// The candidates that the fields of an account make, one for each group of
/// fields that are one identifier.
pub open spec fn candidates_of(schemas: Seq<SchemaView>) -> Seq<KeyView> {
    let nodes = nodes_of(schemas);
    let all = groups(nodes.len(), links(nodes));
    Seq::new(
        all.len(),
        |i: int| candidate_of(best_nodes(nodes_at(nodes, all[i])), paths_of(schemas)),
    )
}

/// Better candidates come first, then by name.
pub open spec fn key_before(a: KeyView, b: KeyView) -> bool {
    below(b.score, a.score) || (!below(a.score, b.score) && precedes(a.label, b.label))
}

/// The candidates for the key of an account, best first.
pub open spec fn keys_of(schemas: Seq<SchemaView>) -> Seq<KeyView> {
    arranged(candidates_of(schemas), |a: KeyView, b: KeyView| key_before(a, b))
}

impl Arrange for KeyCandidate {
    open spec fn before() -> spec_fn(KeyView, KeyView) -> bool {
        |a: KeyView, b: KeyView| key_before(a, b)
    }

    fn comes_before(&self, other: &Self) -> (r: bool) {
        other.score.is_below(&self.score) || (!self.score.is_below(&other.score) && is_before(
            self.label.as_str(),
            other.label.as_str(),
        ))
    }
}

fn best_node(nodes: &Vec<Node>, container: &str) -> (out: Option<Node>)
    ensures
        out.deep_view() == best_in(nodes.deep_view(), container@),
{
    let ghost all = nodes.deep_view();
    let mut out: Option<Node> = None;
    let mut i: usize = 0;
    while i < nodes.len()
        invariant
            all == nodes.deep_view(),
            i <= nodes@.len(),
            out.deep_view() == best_in(all.take(i as int), container@),
        decreases nodes.len() - i,
    {
        let node = &nodes[i];
        assert(all.take(i + 1).drop_last() =~= all.take(i as int));
        assert(all.take(i + 1).last() == node@);
        if same(node.container.as_str(), container) {
            let better = match &out {
                Some(best) => node.distinct > best.distinct || (node.distinct == best.distinct
                    && node.seen_in > best.seen_in),
                None => true,
            };
            if better {
                out = Some(node.clone());
            }
        }
        i = i + 1;
    }
    assert(all.take(i as int) =~= all);
    out
}

fn node_containers(nodes: &Vec<Node>) -> (out: Vec<String>)
    ensures
        out.deep_view() == containers_of(nodes.deep_view()),
{
    let mut out: Vec<String> = Vec::new();
    let mut i: usize = 0;
    while i < nodes.len()
        invariant
            i <= nodes@.len(),
            out@.len() == i,
            forall|j: int| 0 <= j < i ==> (#[trigger] out@[j])@ == nodes@[j]@.container,
        decreases nodes.len() - i,
    {
        out.push(nodes[i].container.clone());
        i = i + 1;
    }
    assert(out.deep_view() =~= containers_of(nodes.deep_view()));
    out
}

fn node_fields(nodes: &Vec<Node>) -> (out: Vec<String>)
    ensures
        out.deep_view() == fields_of(nodes.deep_view()),
{
    let mut out: Vec<String> = Vec::new();
    let mut i: usize = 0;
    while i < nodes.len()
        invariant
            i <= nodes@.len(),
            out@.len() == i,
            forall|j: int| 0 <= j < i ==> (#[trigger] out@[j])@ == nodes@[j]@.field,
        decreases nodes.len() - i,
    {
        out.push(nodes[i].field.clone());
        i = i + 1;
    }
    assert(out.deep_view() =~= fields_of(nodes.deep_view()));
    out
}

pub(crate) proof fn best_in_exists(nodes: Seq<NodeView>, container: Text)
    ensures
        best_in(nodes, container) is Some <==> containers_of(nodes).contains(container),
        best_in(nodes, container) is Some ==> nodes.contains(best_in(nodes, container)->0)
            && best_in(nodes, container)->0.container == container,
    decreases nodes.len(),
{
    let all = containers_of(nodes);
    if nodes.len() > 0 {
        let front = nodes.drop_last();
        best_in_exists(front, container);
        assert(nodes.contains(nodes.last())) by {
            assert(nodes[nodes.len() - 1] == nodes.last());
        }
        if let Some(best) = best_in(front, container) {
            let k = choose|k: int| 0 <= k < front.len() && front[k] == best;
            assert(nodes[k] == best);
            assert(all[k] == container);
        }
        if nodes.last().container == container {
            assert(all[nodes.len() - 1] == container);
        }
        if all.contains(container) {
            let k = choose|k: int| 0 <= k < all.len() && all[k] == container;
            if k < front.len() {
                assert(containers_of(front)[k] == container);
            }
        }
    }
}

fn find_best_nodes(nodes: &Vec<Node>) -> (out: Vec<Node>)
    ensures
        out.deep_view() == best_nodes(nodes.deep_view()),
{
    let ghost all = nodes.deep_view();
    let listed = node_containers(nodes);
    let containers = distinct_of(&listed);
    let mut out: Vec<Node> = Vec::new();
    let mut i: usize = 0;
    assert(out.deep_view() =~= Seq::<NodeView>::empty());
    while i < containers.len()
        invariant
            all == nodes.deep_view(),
            containers.deep_view() == distinct(containers_of(all)),
            i <= containers@.len(),
            out@.len() == i,
            out.deep_view() == best_nodes(all).take(i as int),
        decreases containers.len() - i,
    {
        let ghost container = containers@[i as int]@;
        proof {
            distinct_is_ascending(containers_of(all));
            assert(containers.deep_view()[i as int] == container);
            assert(distinct(containers_of(all)).contains(container));
            best_in_exists(all, container);
        }
        if let Some(node) = best_node(nodes, containers[i].as_str()) {
            let ghost before = out.deep_view();
            let ghost view = node@;
            out.push(node);
            assert(out.deep_view() =~= before.push(view));
            assert(best_nodes(all)[i as int] == view);
            assert(best_nodes(all).take(i + 1) =~= best_nodes(all).take(i as int).push(view));
        }
        i = i + 1;
    }
    assert(best_nodes(all).take(i as int) =~= best_nodes(all));
    out
}

fn count_shared(nodes: &Vec<Node>) -> (n: usize)
    ensures
        n == shared_values(nodes.deep_view()).len(),
{
    let ghost all = nodes.deep_view();
    let mut seen = TextSet::new();
    let mut shared = TextSet::new();
    let mut i: usize = 0;
    while i < nodes.len()
        invariant
            all == nodes.deep_view(),
            i <= nodes@.len(),
            seen@ == all_values(all.take(i as int)),
            shared@ == shared_values(all.take(i as int)),
        decreases nodes.len() - i,
    {
        let node = &nodes[i];
        assert(all.take(i + 1).drop_last() =~= all.take(i as int));
        assert(all.take(i + 1).last() == node@);
        let known = |v: &str| -> (r: bool)
            ensures
                r == seen@.contains(v@),
            { seen.contains(v) };
        let again = node.linkable.keep_where(known, Ghost(|v: Text| seen@.contains(v)));
        assert(again@ =~= node.linkable@.intersect(seen@));
        shared.take_in(&again);
        seen.take_in(&node.linkable);
        i = i + 1;
    }
    assert(all.take(i as int) =~= all);
    shared.len()
}

fn count_spelled(nodes: &Vec<Node>, name: &str) -> (n: usize)
    ensures
        n == spelled(nodes.deep_view(), name@),
{
    let ghost all = nodes.deep_view();
    let mut n: usize = 0;
    let mut i: usize = 0;
    while i < nodes.len()
        invariant
            all == nodes.deep_view(),
            i <= nodes@.len(),
            n <= i,
            n == spelled(all.take(i as int), name@),
        decreases nodes.len() - i,
    {
        assert(all.take(i + 1).drop_last() =~= all.take(i as int));
        assert(all.take(i + 1).last() == nodes@[i as int]@);
        if same(nodes[i].field.as_str(), name) {
            n = n + 1;
        }
        i = i + 1;
    }
    assert(all.take(i as int) =~= all);
    n
}

fn find_common_name(nodes: &Vec<Node>, names: &Vec<String>) -> (out: String)
    ensures
        out@ == common_name(nodes.deep_view(), names.deep_view()),
{
    let ghost nodes_seen = nodes.deep_view();
    let ghost all = names.deep_view();
    if names.len() == 0 {
        let out = String::new();
        assert(out@ =~= Seq::<char>::empty());
        return out;
    }
    let mut best: usize = 0;
    let mut i: usize = 1;
    assert(all.take(1)[0] == all[0]);
    while i < names.len()
        invariant
            nodes_seen == nodes.deep_view(),
            all == names.deep_view(),
            1 <= i <= names@.len(),
            best < i,
            names@[best as int]@ == common_name(nodes_seen, all.take(i as int)),
        decreases names.len() - i,
    {
        assert(all.take(i + 1).drop_last() =~= all.take(i as int));
        assert(all.take(i + 1).last() == names@[i as int]@);
        let mine = count_spelled(nodes, names[i].as_str());
        let most = count_spelled(nodes, names[best].as_str());
        if mine > most || (mine == most && byte_len(names[i].as_str()) <= byte_len(
            names[best].as_str(),
        )) {
            best = i;
        }
        i = i + 1;
    }
    assert(all.take(i as int) =~= all);
    names[best].clone()
}

fn full_name_of(node: &Node) -> (out: String)
    ensures
        out@ == full_name(node@),
{
    let front = concat(node.container.as_str(), "\u{1}");
    concat(front.as_str(), node.field.as_str())
}

fn find_first_name(nodes: &Vec<Node>) -> (out: String)
    ensures
        out@ == first_name(nodes.deep_view()),
{
    let ghost all = nodes.deep_view();
    if nodes.len() == 0 {
        let out = String::new();
        assert(out@ =~= Seq::<char>::empty());
        return out;
    }
    let mut out = full_name_of(&nodes[0]);
    let mut i: usize = 1;
    assert(all.take(1)[0] == all[0]);
    while i < nodes.len()
        invariant
            all == nodes.deep_view(),
            1 <= i <= nodes@.len(),
            out@ == first_name(all.take(i as int)),
        decreases nodes.len() - i,
    {
        assert(all.take(i + 1).drop_last() =~= all.take(i as int));
        assert(all.take(i + 1).last() == nodes@[i as int]@);
        let name = full_name_of(&nodes[i]);
        if is_before(name.as_str(), out.as_str()) {
            out = name;
        }
        i = i + 1;
    }
    assert(all.take(i as int) =~= all);
    out
}

fn mostly_id_nodes(nodes: &Vec<Node>) -> (r: bool)
    ensures
        r == (2 * id_nodes(nodes.deep_view()) > nodes@.len()),
{
    let ghost all = nodes.deep_view();
    let mut n: usize = 0;
    let mut i: usize = 0;
    while i < nodes.len()
        invariant
            all == nodes.deep_view(),
            i <= nodes@.len(),
            n <= i,
            n == id_nodes(all.take(i as int)),
        decreases nodes.len() - i,
    {
        assert(all.take(i + 1).drop_last() =~= all.take(i as int));
        assert(all.take(i + 1).last() == nodes@[i as int]@);
        if nodes[i].id_shaped {
            n = n + 1;
        }
        i = i + 1;
    }
    assert(all.take(i as int) =~= all);
    n > nodes.len() - n
}

fn any_name_hint(nodes: &Vec<Node>) -> (r: bool)
    ensures
        r == exists|i: int|
            0 <= i < nodes.deep_view().len() && hints_at_id(#[trigger] nodes.deep_view()[i].name_key),
{
    let ghost all = nodes.deep_view();
    let mut i: usize = 0;
    while i < nodes.len()
        invariant
            all == nodes.deep_view(),
            i <= nodes@.len(),
            forall|j: int| 0 <= j < i ==> !hints_at_id(#[trigger] all[j].name_key),
        decreases nodes.len() - i,
    {
        assert(all[i as int] == nodes@[i as int]@);
        if name_suggests_identifier(nodes[i].name_key.as_str()) {
            assert(hints_at_id(all[i as int].name_key));
            return true;
        }
        i = i + 1;
    }
    false
}

fn bindings_of(nodes: &Vec<Node>) -> (out: Vec<Binding>)
    ensures
        out.deep_view() == Seq::new(
            nodes.deep_view().len(),
            |i: int| binding_of(nodes.deep_view()[i]),
        ),
{
    let mut out: Vec<Binding> = Vec::new();
    let mut i: usize = 0;
    while i < nodes.len()
        invariant
            i <= nodes@.len(),
            out@.len() == i,
            forall|j: int| 0 <= j < i ==> (#[trigger] out@[j])@ == binding_of(nodes@[j]@),
        decreases nodes.len() - i,
    {
        let node = &nodes[i];
        out.push(
            Binding {
                container: node.container.clone(),
                field: node.field.clone(),
                seen_in: node.seen_in,
                sampled_docs: node.sampled_docs,
                distinct: node.distinct,
            },
        );
        i = i + 1;
    }
    assert(out.deep_view() =~= Seq::new(
        nodes.deep_view().len(),
        |i: int| binding_of(nodes.deep_view()[i]),
    ));
    out
}

fn find_missing(paths: &Vec<String>, containers: &Vec<String>) -> (out: Vec<String>)
    ensures
        out.deep_view() == left_out(paths.deep_view(), containers.deep_view()),
{
    let ghost all = paths.deep_view();
    let mut out: Vec<String> = Vec::new();
    let mut i: usize = 0;
    assert(out.deep_view() =~= Seq::<Text>::empty());
    while i < paths.len()
        invariant
            all == paths.deep_view(),
            i <= paths@.len(),
            out.deep_view() == left_out(all.take(i as int), containers.deep_view()),
        decreases paths.len() - i,
    {
        assert(all.take(i + 1).drop_last() =~= all.take(i as int));
        assert(all.take(i + 1).last() == paths@[i as int]@);
        if !is_listed(containers, paths[i].as_str()) {
            let ghost before = out.deep_view();
            out.push(paths[i].clone());
            assert(out.deep_view() =~= before.push(paths@[i as int]@));
        }
        i = i + 1;
    }
    assert(all.take(i as int) =~= all);
    out
}

fn find_average(nodes: &Vec<Node>, of_values: bool) -> (out: Single)
    ensures
        out@ == average(
            if of_values {
                total_distinct(nodes.deep_view())
            } else {
                total_fill(nodes.deep_view())
            },
            nodes@.len(),
        ),
        tame(out@, 0x1000_0000_0000_0000_0000),
        !out@.neg,
{
    let ghost all = nodes.deep_view();
    let mut total = Single::zero();
    let mut i: usize = 0;
    let ghost mut limit: int = 390;
    while i < nodes.len()
        invariant
            all == nodes.deep_view(),
            i <= nodes@.len(),
            limit == 390 + 130 * i,
            tame(total@, limit),
            !total@.neg,
            total@ == (if of_values {
                total_distinct(all.take(i as int))
            } else {
                total_fill(all.take(i as int))
            }),
        decreases nodes.len() - i,
    {
        let node = &nodes[i];
        assert(all.take(i + 1).drop_last() =~= all.take(i as int));
        assert(all.take(i + 1).last() == node@);
        let part = if of_values {
            find_fraction(node.distinct, node.seen_in)
        } else {
            find_fraction(node.seen_in, node.sampled_docs)
        };
        total = total.plus(&part, Ghost(limit));
        proof {
            limit = limit + 130;
        }
        i = i + 1;
    }
    assert(all.take(i as int) =~= all);
    let n: usize = if nodes.len() == 0 {
        1
    } else {
        nodes.len()
    };
    total.over(&Single::of(n), Ghost(limit))
}

fn add_reason(list: &mut Vec<Evidence>, holds: bool, good: bool, text: String)
    ensures
        final(list).deep_view() == old(list).deep_view() + reason(holds, good, text@),
{
    let ghost before = list.deep_view();
    if holds {
        list.push(Evidence { good, text });
        assert(list.deep_view() =~= before + reason(holds, good, text@));
    } else {
        assert(before + reason(holds, good, text@) =~= before);
    }
}

fn between(front: &str, middle: &str, back: &str) -> (out: String)
    ensures
        out@ == front@ + middle@ + back@,
{
    let start = concat(front, middle);
    concat(start.as_str(), back)
}

/// What is known of a group, from which it is judged.
struct Facts {
    reach: usize,
    shared_values: usize,
    names: Vec<String>,
    id_shaped: bool,
    name_hint: bool,
    avg_fill: Single,
    avg_distinct_ratio: Single,
}

impl View for Facts {
    type V = Merits;

    closed spec fn view(&self) -> Merits {
        Merits {
            reach: self.reach as nat,
            shared_values: self.shared_values as nat,
            names: self.names.deep_view(),
            id_shaped: self.id_shaped,
            name_hint: self.name_hint,
            avg_fill: self.avg_fill@,
            avg_distinct_ratio: self.avg_distinct_ratio@,
        }
    }
}

impl Facts {
    spec fn wf(&self) -> bool {
        &&& tame(self.avg_fill@, 0x1000_0000_0000_0000_0000)
        &&& !self.avg_fill@.neg
        &&& tame(self.avg_distinct_ratio@, 0x1000_0000_0000_0000_0000)
        &&& !self.avg_distinct_ratio@.neg
    }
}

fn find_facts(best: &Vec<Node>) -> (out: Facts)
    ensures
        out@ == merits_of(best.deep_view()),
        out.wf(),
{
    let fields = node_fields(best);
    Facts {
        reach: best.len(),
        shared_values: count_shared(best),
        names: distinct_of(&fields),
        id_shaped: mostly_id_nodes(best),
        name_hint: any_name_hint(best),
        avg_fill: find_average(best, false),
        avg_distinct_ratio: find_average(best, true),
    }
}

fn find_evidence(facts: &Facts) -> (out: Vec<Evidence>)
    requires
        facts.wf(),
    ensures
        out.deep_view() == evidence_of(facts@),
{
    let mut out: Vec<Evidence> = Vec::new();
    assert(out.deep_view() =~= Seq::<EvidenceView>::empty());
    let reach = count(facts.reach);
    add_reason(
        &mut out,
        facts.reach > 1,
        true,
        between("present in ", reach.as_str(), " containers"),
    );
    add_reason(
        &mut out,
        facts.reach <= 1,
        false,
        "only in one container — nothing to trace across".to_owned(),
    );
    let shared = count(facts.shared_values);
    add_reason(
        &mut out,
        facts.shared_values > 0,
        true,
        concat(shared.as_str(), " values seen in more than one container"),
    );
    add_reason(
        &mut out,
        facts.shared_values == 0 && facts.reach > 1,
        false,
        "no shared values in the sample — the link is unproven".to_owned(),
    );
    let names = join(&facts.names, ", ");
    add_reason(
        &mut out,
        facts.names.len() > 1,
        true,
        concat("same values under different names: ", names.as_str()),
    );
    add_reason(&mut out, facts.id_shaped, true, "values look like identifiers".to_owned());
    let half = Single::ratio(1, 2);
    let few = Single::ratio(15, 100);
    if facts.avg_distinct_ratio.is_below(&few) {
        proof {
            few_is_less_than_half(facts.avg_distinct_ratio@);
        }
        let digits = number(facts.avg_distinct_ratio.percent());
        add_reason(
            &mut out,
            true,
            false,
            between(
                "only ",
                digits.as_str(),
                "% distinct values — looks like a status, not an id",
            ),
        );
    }
    if facts.avg_fill.is_below(&half) {
        let digits = number(facts.avg_fill.percent());
        add_reason(
            &mut out,
            true,
            false,
            between("set on only ", digits.as_str(), "% of sampled documents"),
        );
    }
    add_reason(&mut out, facts.name_hint, true, "name follows a common id convention".to_owned());
    assert(out.deep_view() =~= evidence_of(facts@));
    out
}

fn find_score(facts: &Facts) -> (out: Single)
    requires
        facts.wf(),
    ensures
        out@ == score_of(facts@),
{
    let ghost limit: int = 0x4000_0000_0000_0000_0000;
    let mut score = if facts.reach == 0 {
        Single::of(3).negated()
    } else if facts.reach <= 6 {
        Single::of(3 * (facts.reach - 1))
    } else {
        Single::of(15)
    };
    if facts.shared_values > 0 {
        let most: usize = if facts.shared_values < 10 {
            facts.shared_values
        } else {
            10
        };
        let more = Single::of(most).times(&Single::ratio(3, 10), Ghost(130));
        let points = Single::of(4).plus(&more, Ghost(390));
        score = score.plus(&points, Ghost(520));
    }
    if facts.id_shaped {
        score = score.plus(&Single::ratio(3, 2), Ghost(650));
    }
    if facts.avg_distinct_ratio.is_below(&Single::ratio(15, 100)) {
        score = score.plus(&Single::of(5).negated(), Ghost(780));
    }
    let filled = facts.avg_fill.times(&Single::of(2), Ghost(0x1000_0000_0000_0000_0000));
    score = score.plus(&filled, Ghost(limit));
    if facts.name_hint {
        score = score.plus(&Single::of(1), Ghost(limit + 130));
    }
    score
}

/// The candidate that the fields `best`, one for each container, make.
fn build_candidate(best: &Vec<Node>, all_paths: &Vec<String>) -> (out: KeyCandidate)
    ensures
        out@ == candidate_of(best.deep_view(), all_paths.deep_view()),
{
    let facts = find_facts(best);
    let containers = node_containers(best);
    KeyCandidate {
        id: find_first_name(best),
        label: find_common_name(best, &facts.names),
        bindings: bindings_of(best),
        missing: find_missing(all_paths, &containers),
        shared_values: facts.shared_values,
        cross_named: facts.names.len() > 1,
        id_shaped: facts.id_shaped,
        avg_fill: facts.avg_fill,
        avg_distinct_ratio: facts.avg_distinct_ratio,
        score: find_score(&facts),
        evidence: find_evidence(&facts),
    }
}

/// How the containers of `schemas` are named.
pub fn container_paths(schemas: &Vec<ContainerSchema>) -> (out: Vec<String>)
    ensures
        out.deep_view() == paths_of(schemas.deep_view()),
{
    let mut out: Vec<String> = Vec::new();
    let mut i: usize = 0;
    while i < schemas.len()
        invariant
            i <= schemas@.len(),
            out@.len() == i,
            forall|j: int|
                0 <= j < i ==> (#[trigger] out@[j])@ == container_path(
                    schemas@[j]@.database,
                    schemas@[j]@.container,
                ),
        decreases schemas.len() - i,
    {
        out.push(schemas[i].path());
        i = i + 1;
    }
    assert(out.deep_view() =~= paths_of(schemas.deep_view()));
    out
}

fn nodes_with(nodes: &Vec<Node>, members: &Vec<usize>) -> (out: Vec<Node>)
    requires
        forall|i: int| 0 <= i < members@.len() ==> (#[trigger] members@[i]) < nodes@.len(),
    ensures
        out.deep_view() == nodes_at(nodes.deep_view(), numbers(members@)),
{
    let mut out: Vec<Node> = Vec::new();
    let mut i: usize = 0;
    while i < members.len()
        invariant
            forall|i: int| 0 <= i < members@.len() ==> (#[trigger] members@[i]) < nodes@.len(),
            i <= members@.len(),
            out@.len() == i,
            forall|j: int| 0 <= j < i ==> (#[trigger] out@[j])@ == nodes@[members@[j] as int]@,
        decreases members.len() - i,
    {
        out.push(nodes[members[i]].clone());
        i = i + 1;
    }
    assert(out.deep_view() =~= nodes_at(nodes.deep_view(), numbers(members@)));
    out
}

/// The candidates for the key, best first: fields of the same name across
/// containers, or with enough values in common, are one candidate.
pub fn key_candidates(schemas: &Vec<ContainerSchema>) -> (out: Vec<KeyCandidate>)
    ensures
        out.deep_view() == keys_of(schemas.deep_view()),
{
    let all_paths = container_paths(schemas);
    let nodes = find_nodes(schemas);
    let grouped = group_nodes(&nodes);
    let ghost view = nodes.deep_view();
    let ghost all = groups(view.len(), links(view));
    let mut out: Vec<KeyCandidate> = Vec::new();
    let mut i: usize = 0;
    while i < grouped.len()
        invariant
            view == nodes.deep_view(),
            all == groups(view.len(), links(view)),
            number_groups(grouped@) == all,
            all_paths.deep_view() == paths_of(schemas.deep_view()),
            i <= grouped@.len(),
            out@.len() == i,
            forall|j: int|
                0 <= j < i ==> (#[trigger] out@[j])@ == candidate_of(
                    best_nodes(nodes_at(view, all[j])),
                    paths_of(schemas.deep_view()),
                ),
        decreases grouped.len() - i,
    {
        assert(all[i as int] == numbers(grouped@[i as int]@));
        assert forall|k: int| 0 <= k < grouped@[i as int]@.len() implies (
        #[trigger] grouped@[i as int]@[k]) < nodes@.len() by {
            groups_partition(view.len(), links(view));
            assert(all[i as int].contains(all[i as int][k]));
        }
        let members = nodes_with(&nodes, &grouped[i]);
        let best = find_best_nodes(&members);
        out.push(build_candidate(&best, &all_paths));
        i = i + 1;
    }
    assert(out.deep_view() =~= candidates_of(schemas.deep_view()));
    arrange(out)
}

// ── What holds of every candidate ────────────────────────────────────────

/// A group binds each of its containers exactly once, in ascending order, and
/// to one of the fields that the container contributes; every container of the
/// account is either bound or missing, never both.
pub proof fn group_binds_each_container_once(nodes: Seq<NodeView>, all_paths: Seq<Text>)
    ensures
        ({
            let group = candidate_of(best_nodes(nodes), all_paths);
            let bound = Seq::new(group.bindings.len(), |i: int| group.bindings[i].container);
            &&& ascending(bound)
            &&& forall|c: Text| #[trigger] bound.contains(c) <==> containers_of(nodes).contains(c)
            &&& forall|i: int|
                0 <= i < group.bindings.len() ==> exists|k: int|
                    0 <= k < nodes.len() && #[trigger] group.bindings[i] == binding_of(
                        #[trigger] nodes[k],
                    )
            &&& forall|c: Text| #[trigger]
                group.missing.contains(c) <==> all_paths.contains(c) && !bound.contains(c)
        }),
{
    let best = best_nodes(nodes);
    let group = candidate_of(best, all_paths);
    let bound = Seq::new(group.bindings.len(), |i: int| group.bindings[i].container);
    let containers = distinct(containers_of(nodes));
    distinct_is_ascending(containers_of(nodes));
    assert forall|i: int| 0 <= i < best.len() implies (#[trigger] best[i]).container
        == containers[i] && nodes.contains(best[i]) by {
        assert(containers.contains(containers[i]));
        best_in_exists(nodes, containers[i]);
    }
    assert(bound =~= containers);
    assert(containers_of(best) =~= containers);
    left_out_is_the_rest(all_paths, containers);
    assert forall|i: int| 0 <= i < group.bindings.len() implies exists|k: int|
        0 <= k < nodes.len() && #[trigger] group.bindings[i] == binding_of(#[trigger] nodes[k]) by {
        assert(nodes.contains(best[i]));
        let k = choose|k: int| 0 <= k < nodes.len() && nodes[k] == best[i];
        assert(group.bindings[i] == binding_of(nodes[k]));
    }
}

pub(crate) proof fn left_out_is_the_rest(paths: Seq<Text>, containers: Seq<Text>)
    ensures
        forall|c: Text| #[trigger]
            left_out(paths, containers).contains(c) <==> paths.contains(c) && !containers.contains(
                c,
            ),
    decreases paths.len(),
{
    let out = left_out(paths, containers);
    if paths.len() > 0 {
        let front = paths.drop_last();
        let rest = left_out(front, containers);
        left_out_is_the_rest(front, containers);
        assert forall|c: Text| #[trigger] out.contains(c) <==> paths.contains(c)
            && !containers.contains(c) by {
            assert(paths =~= front.push(paths.last()));
            if out.contains(c) {
                let k = choose|k: int| 0 <= k < out.len() && out[k] == c;
                if k < rest.len() {
                    assert(rest[k] == c);
                    assert(rest.contains(c));
                    let m = choose|m: int| 0 <= m < front.len() && front[m] == c;
                    assert(paths[m] == c);
                } else {
                    assert(paths[paths.len() - 1] == c);
                }
            }
            if paths.contains(c) && !containers.contains(c) {
                let k = choose|k: int| 0 <= k < paths.len() && paths[k] == c;
                if k < front.len() {
                    assert(front[k] == c);
                    assert(rest.contains(c));
                    let m = choose|m: int| 0 <= m < rest.len() && rest[m] == c;
                    assert(out[m] == c);
                } else {
                    assert(out[out.len() - 1] == c);
                }
            }
        }
    }
}

proof fn all_values_are_carried(nodes: Seq<NodeView>, v: Text)
    ensures
        all_values(nodes).contains(v) <==> exists|i: int|
            0 <= i < nodes.len() && (#[trigger] nodes[i]).linkable.contains(v),
    decreases nodes.len(),
{
    if nodes.len() > 0 {
        let front = nodes.drop_last();
        all_values_are_carried(front, v);
        if all_values(front).contains(v) {
            let i = choose|i: int|
                0 <= i < front.len() && (#[trigger] front[i]).linkable.contains(v);
            assert(nodes[i].linkable.contains(v));
        }
        if nodes.last().linkable.contains(v) {
            assert(nodes[nodes.len() - 1].linkable.contains(v));
        }
        if exists|i: int| 0 <= i < nodes.len() && (#[trigger] nodes[i]).linkable.contains(v) {
            let i = choose|i: int|
                0 <= i < nodes.len() && (#[trigger] nodes[i]).linkable.contains(v);
            if i < front.len() {
                assert(front[i].linkable.contains(v));
            }
        }
    }
}

/// The values that count as shared are exactly those that at least two of the
/// bound fields carry.
pub proof fn shared_values_are_in_two(nodes: Seq<NodeView>, v: Text)
    ensures
        shared_values(nodes).contains(v) <==> exists|i: int, j: int|
            0 <= i < j < nodes.len() && (#[trigger] nodes[i]).linkable.contains(v) && (
            #[trigger] nodes[j]).linkable.contains(v),
    decreases nodes.len(),
{
    if nodes.len() > 0 {
        let front = nodes.drop_last();
        let last = nodes.len() - 1;
        shared_values_are_in_two(front, v);
        all_values_are_carried(front, v);
        if shared_values(front).contains(v) {
            let (i, j) = choose|i: int, j: int|
                0 <= i < j < front.len() && (#[trigger] front[i]).linkable.contains(v) && (
                #[trigger] front[j]).linkable.contains(v);
            assert(nodes[i].linkable.contains(v) && nodes[j].linkable.contains(v));
        }
        if all_values(front).contains(v) && nodes.last().linkable.contains(v) {
            let i = choose|i: int|
                0 <= i < front.len() && (#[trigger] front[i]).linkable.contains(v);
            assert(nodes[i].linkable.contains(v) && nodes[last].linkable.contains(v));
        }
        if exists|i: int, j: int|
            0 <= i < j < nodes.len() && (#[trigger] nodes[i]).linkable.contains(v) && (
            #[trigger] nodes[j]).linkable.contains(v) {
            let (i, j) = choose|i: int, j: int|
                0 <= i < j < nodes.len() && (#[trigger] nodes[i]).linkable.contains(v) && (
                #[trigger] nodes[j]).linkable.contains(v);
            assert(front[i].linkable.contains(v));
            if j < last {
                assert(front[j].linkable.contains(v));
            }
        }
    }
}

/// The identity of a group is the first, in the alphabet, of its fields
/// together with their containers: it is one of them, and none comes before
/// it, in whatever order they were found.
pub proof fn identity_is_first_name(nodes: Seq<NodeView>)
    requires
        nodes.len() > 0,
    ensures
        exists|i: int| 0 <= i < nodes.len() && first_name(nodes) == full_name(#[trigger] nodes[i]),
        forall|i: int|
            0 <= i < nodes.len() ==> !precedes(full_name(#[trigger] nodes[i]), first_name(nodes)),
    decreases nodes.len(),
{
    let least = first_name(nodes);
    if nodes.len() == 1 {
        precedes_is_irreflexive(full_name(nodes[0]));
        assert(least == full_name(nodes[0]));
    } else {
        let front = nodes.drop_last();
        let last = nodes.len() - 1;
        identity_is_first_name(front);
        let k = choose|k: int|
            0 <= k < front.len() && first_name(front) == full_name(#[trigger] front[k]);
        assert(nodes[k] == front[k]);
        precedes_is_irreflexive(full_name(nodes[last]));
        assert(least == full_name(nodes[k]) || least == full_name(nodes[last]));
        assert forall|i: int| 0 <= i < nodes.len() implies !precedes(
            full_name(#[trigger] nodes[i]),
            least,
        ) by {
            if i < last {
                assert(nodes[i] == front[i]);
                if precedes(full_name(nodes[last]), first_name(front)) {
                    names_in_turn(full_name(nodes[i]), first_name(front), least);
                    names_in_turn(full_name(nodes[last]), first_name(front), least);
                }
            }
        }
    }
}

/// The candidates for the key come best first: none stands behind one with a
/// lower score, nor, among those with the same score, behind one whose name is
/// later in the alphabet. Every group of fields has its candidate, and there are
/// no others.
pub proof fn keys_come_best_first(schemas: Seq<SchemaView>)
    ensures
        in_order(keys_of(schemas), |a: KeyView, b: KeyView| key_before(a, b)),
        keys_of(schemas).to_multiset() == candidates_of(schemas).to_multiset(),
{
    let before = |a: KeyView, b: KeyView| key_before(a, b);
    assert forall|a: KeyView, b: KeyView| #[trigger] before(a, b) implies !before(b, a) by {
        below_is_an_order(a.score, b.score, a.score);
        names_in_turn(a.label, b.label, a.label);
    }
    assert forall|a: KeyView, b: KeyView, c: KeyView|
        !#[trigger] before(a, b) && !#[trigger] before(b, c) implies !before(a, c) by {
        below_is_an_order(a.score, b.score, c.score);
        below_is_an_order(c.score, b.score, a.score);
        below_is_an_order(b.score, a.score, c.score);
        below_is_an_order(b.score, c.score, a.score);
        below_is_an_order(a.score, c.score, b.score);
        below_is_an_order(c.score, a.score, b.score);
        names_in_turn(a.label, b.label, c.label);
    }
    assert(is_order(before));
    arranged_in_order(candidates_of(schemas), before);
    arranged_is_permutation(candidates_of(schemas), before);
}

} // verus!
