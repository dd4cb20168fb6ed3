//! What the sampled documents of a container show of its fields.

use crate::order::{
    arrange, arranged, arranged_in_order, arranged_is_permutation, distinct, distinct_is_ascending,
    distinct_of, is_order, same_items, Arrange,
};
use crate::services::cosmos::{ContainerSchema, FieldInfo, FieldView, SchemaView, SAMPLE_SIZE};
use crate::services::document::{member_named, value_at, value_under};
use crate::services::paths::{
    all_ascii_lowered, child_path, child_path_is_ascii, cut_short, escaped_is_no_shorter, join_path,
    names, names_of_lowered, split_undoes_join,
};
use crate::text::{
    ascii_lowered, is_ascii, is_before, is_listed, lowered, names_in_turn, precedes,
    precedes_is_irreflexive, precedes_is_total, precedes_is_transitive, same, Text,
};
use crate::text_set::TextSet;
use crate::value::{value_view, Value, ValueView};
use vstd::prelude::*;

verus! {

/// How far to descend into nested objects. Documents in the wild bury their
/// identifiers under `properties.` or `body.` wrappers, and a tracer that only
/// looks at top-level fields would miss them.
pub const MAX_DEPTH: usize = 3;

/// What stands at a path of a document.
#[derive(Debug, PartialEq, Clone, Copy)]
pub enum Found<'a> {
    /// An object whose members are listed in their own right.
    Wrapper,
    /// Any other value.
    Value(&'a Value),
}

impl<'a> View for Found<'a> {
    type V = ValueView;

    open spec fn view(&self) -> ValueView {
        match self {
            Found::Wrapper => ValueView::Object(Seq::empty()),
            Found::Value(v) => value_view(**v),
        }
    }
}

impl<'a> DeepView for Found<'a> {
    type V = ValueView;

    open spec fn deep_view(&self) -> ValueView {
        self@
    }
}

/// The paths below `prefix` in an object with these members, each with what
/// stands there. An object inside is listed as a wrapper and descended into,
/// as long as the nesting is less than `MAX_DEPTH`.
pub open spec fn leaves(prefix: Text, members: Seq<(Text, ValueView)>, depth: nat) -> Seq<
    (Text, ValueView),
>
    decreases MAX_DEPTH - depth, members.len(),
{
    if members.len() == 0 {
        Seq::empty()
    } else {
        let path = child_path(prefix, members.last().0);
        let child = members.last().1;
        leaves(prefix, members.drop_last(), depth) + (match child {
            ValueView::Object(inner) if depth + 1 < MAX_DEPTH => seq![
                (path, ValueView::Object(Seq::empty())),
            ] + leaves(path, inner, depth + 1),
            _ => seq![(path, child)],
        })
    }
}

/// The paths below `prefix` in `value`, each with what stands there.
pub open spec fn flattened(prefix: Text, value: ValueView, depth: nat) -> Seq<(Text, ValueView)> {
    match value {
        ValueView::Object(members) => leaves(prefix, members, depth),
        _ => Seq::empty(),
    }
}

/// Walks a document into pairs of a dotted path and what stands there. Nested
/// objects are recorded in their own right *and* descended into, up to
/// `MAX_DEPTH`. Arrays are recorded but not descended into: an element index
/// is not a stable field path.
pub fn flatten<'a>(
    prefix: &str,
    value: &'a Value,
    depth: usize,
    out: &mut Vec<(String, Found<'a>)>,
)
    ensures
        final(out).deep_view() == old(out).deep_view() + flattened(prefix@, value@, depth as nat),
    decreases MAX_DEPTH - depth, value,
{
    let ghost before = out.deep_view();
    match value {
        Value::Object(members) => {
            let ghost all = value@->Object_0;
            let mut i: usize = 0;
            assert(before + leaves(prefix@, all.take(0), depth as nat) =~= before);
            while i < members.len()
                invariant
                    *value == Value::Object(*members),
                    all == value@->Object_0,
                    all.len() == members@.len(),
                    i <= members@.len(),
                    out.deep_view() == before + leaves(prefix@, all.take(i as int), depth as nat),
                decreases members.len() - i,
            {
                let member = &members[i];
                let ghost here = out.deep_view();
                let path = join_path(prefix, member.0.as_str());
                let ghost upto = all.take(i + 1);
                assert(upto.drop_last() =~= all.take(i as int));
                assert(upto.last() == (member.0@, member.1@));
                let nested = depth < MAX_DEPTH - 1 && matches!(member.1, Value::Object(_));
                if nested {
                    let shown = path.clone();
                    out.push((shown, Found::Wrapper));
                    assert(out.deep_view() =~= here.push((path@, ValueView::Object(Seq::empty()))));
                    flatten(path.as_str(), &member.1, depth + 1, out);
                } else {
                    let ghost p = path@;
                    out.push((path, Found::Value(&member.1)));
                    assert(out.deep_view() =~= here.push((p, member.1@)));
                }
                assert(out.deep_view() =~= before + leaves(prefix@, upto, depth as nat));
                i = i + 1;
            }
            assert(all.take(i as int) =~= all);
        },
        _ => {
            assert(before + Seq::<(Text, ValueView)>::empty() =~= before);
        },
    }
}

// ── Fields ───────────────────────────────────────────────────────────────

/// The comparable form of a scalar value, or `None` for shapes that can't
/// serve as an identifier or a label.
pub open spec fn scalar(v: ValueView) -> Option<Text> {
    match v {
        ValueView::Text(s) => Some(s),
        ValueView::Number(s, _) => Some(s),
        _ => None,
    }
}

/// The name of a value's type.
pub open spec fn type_of(v: ValueView) -> Text {
    match v {
        ValueView::Null => "null"@,
        ValueView::Bool(_) => "bool"@,
        ValueView::Number(_, _) => "number"@,
        ValueView::Text(_) => "string"@,
        ValueView::Array(_) => "array"@,
        ValueView::Object(_) => "object"@,
    }
}

/// The comparable form of a scalar value, or `None` for shapes that can't
/// serve as an identifier or a label.
pub fn scalar_repr(v: &Value) -> (out: Option<String>)
    ensures
        out.deep_view() == scalar(v@),
{
    match v {
        Value::Text(s) => Some(s.clone()),
        Value::Number(n) => Some(n.text.clone()),
        _ => None,
    }
}

/// The name of a value's type.
pub fn json_type_name(v: &Value) -> (out: &'static str)
    ensures
        out@ == type_of(v@),
{
    match v {
        Value::Null => "null",
        Value::Bool(_) => "bool",
        Value::Number(_) => "number",
        Value::Text(_) => "string",
        Value::Array(_) => "array",
        Value::Object(_) => "object",
    }
}

/// The paths in all of `docs`, document by document, each with what stands
/// there.
pub open spec fn all_leaves(docs: Seq<ValueView>) -> Seq<(Text, ValueView)>
    decreases docs.len(),
{
    if docs.len() == 0 {
        Seq::empty()
    } else {
        all_leaves(docs.drop_last()) + flattened(Seq::empty(), docs.last(), 0)
    }
}

/// What stands at `path`, occurrence by occurrence.
pub open spec fn values_at(leaves: Seq<(Text, ValueView)>, path: Text) -> Seq<ValueView>
    decreases leaves.len(),
{
    if leaves.len() == 0 {
        Seq::empty()
    } else if leaves.last().0 == path {
        values_at(leaves.drop_last(), path).push(leaves.last().1)
    } else {
        values_at(leaves.drop_last(), path)
    }
}

/// The types of `values`, each once, in the order in which they first occur.
pub open spec fn types_of(values: Seq<ValueView>) -> Seq<Text>
    decreases values.len(),
{
    if values.len() == 0 {
        Seq::empty()
    } else {
        let types = types_of(values.drop_last());
        let last = type_of(values.last());
        if types.contains(last) {
            types
        } else {
            types.push(last)
        }
    }
}

/// The scalars among `values`.
pub open spec fn scalars_of(values: Seq<ValueView>) -> Set<Text>
    decreases values.len(),
{
    if values.len() == 0 {
        Set::empty()
    } else {
        let front = scalars_of(values.drop_last());
        match scalar(values.last()) {
            Some(s) => front.insert(s),
            None => front,
        }
    }
}

/// The field that the occurrences of `path` make up.
pub open spec fn field_of(leaves: Seq<(Text, ValueView)>, path: Text) -> FieldView {
    let values = values_at(leaves, path);
    FieldView {
        name: path,
        types: types_of(values),
        seen_in: values.len(),
        distinct: scalars_of(values).len(),
        values: scalars_of(values),
    }
}

/// The paths among `leaves`.
pub open spec fn paths_of(leaves: Seq<(Text, ValueView)>) -> Seq<Text> {
    Seq::new(leaves.len(), |i: int| leaves[i].0)
}

/// The fields of documents with these leaves, by name.
pub open spec fn fields_by_name(leaves: Seq<(Text, ValueView)>) -> Seq<FieldView> {
    let paths = distinct(paths_of(leaves));
    Seq::new(paths.len(), |i: int| field_of(leaves, paths[i]))
}

/// Fields that more documents carry come first, then by name.
pub open spec fn field_before(a: FieldView, b: FieldView) -> bool {
    a.seen_in > b.seen_in || (a.seen_in == b.seen_in && precedes(a.name, b.name))
}

/// What the documents `docs` of a container show.
pub open spec fn schema_of(database: Text, container: Text, docs: Seq<ValueView>) -> SchemaView {
    SchemaView {
        database,
        container,
        sampled_docs: docs.len(),
        fields: arranged(
            fields_by_name(all_leaves(docs)),
            |a: FieldView, b: FieldView| field_before(a, b),
        ),
    }
}

/// The documents that are sampled of those that a container hands out.
pub open spec fn sample(docs: Seq<ValueView>) -> Seq<ValueView> {
    if docs.len() <= SAMPLE_SIZE {
        docs
    } else {
        docs.take(SAMPLE_SIZE as int)
    }
}

impl Arrange for FieldInfo {
    open spec fn before() -> spec_fn(FieldView, FieldView) -> bool {
        |a: FieldView, b: FieldView| field_before(a, b)
    }

    fn comes_before(&self, other: &Self) -> (r: bool) {
        self.seen_in > other.seen_in || (self.seen_in == other.seen_in && is_before(
            self.name.as_str(),
            other.name.as_str(),
        ))
    }
}

fn field_at<'a>(leaves: &Vec<(String, Found<'a>)>, path: &str) -> (out: FieldInfo)
    ensures
        out@ == field_of(leaves.deep_view(), path@),
{
    let ghost all = leaves.deep_view();
    let mut types: Vec<String> = Vec::new();
    let mut seen_in: usize = 0;
    let mut distinct: usize = 0;
    let mut values = TextSet::new();
    let mut i: usize = 0;
    assert(types.deep_view() =~= Seq::<Text>::empty());
    while i < leaves.len()
        invariant
            all == leaves.deep_view(),
            i <= leaves@.len(),
            seen_in <= i,
            distinct <= seen_in,
            types.deep_view() == types_of(values_at(all.take(i as int), path@)),
            seen_in == values_at(all.take(i as int), path@).len(),
            values@ == scalars_of(values_at(all.take(i as int), path@)),
            values@.finite(),
            distinct == values@.len(),
        decreases leaves.len() - i,
    {
        let leaf = &leaves[i];
        let ghost upto = all.take(i + 1);
        assert(upto.drop_last() =~= all.take(i as int));
        assert(upto.last() == (leaf.0@, leaf.1@));
        if same(leaf.0.as_str(), path) {
            let ghost front = values_at(all.take(i as int), path@);
            assert(values_at(upto, path@).drop_last() =~= front);
            let ty: &str = match leaf.1 {
                Found::Wrapper => "object",
                Found::Value(v) => json_type_name(v),
            };
            if !is_listed(&types, ty) {
                let ghost listed = types.deep_view();
                types.push(ty.to_owned());
                assert(types.deep_view() =~= listed.push(ty@));
            }
            seen_in = seen_in + 1;
            let found: Option<String> = match leaf.1 {
                Found::Wrapper => None,
                Found::Value(v) => scalar_repr(v),
            };
            if let Some(scalar) = found {
                if values.insert(scalar.as_str()) {
                    distinct = distinct + 1;
                } else {
                    assert(values@ =~= scalars_of(front));
                }
            }
        }
        i = i + 1;
    }
    assert(all.take(i as int) =~= all);
    FieldInfo { name: path.to_owned(), types, seen_in, distinct, values }
}

fn paths_among<'a>(leaves: &Vec<(String, Found<'a>)>) -> (out: Vec<String>)
    ensures
        out.deep_view() == paths_of(leaves.deep_view()),
{
    let mut out: Vec<String> = Vec::new();
    let mut i: usize = 0;
    while i < leaves.len()
        invariant
            i <= leaves@.len(),
            out@.len() == i,
            forall|j: int| 0 <= j < i ==> (#[trigger] out@[j])@ == leaves@[j].0@,
        decreases leaves.len() - i,
    {
        out.push(leaves[i].0.clone());
        i = i + 1;
    }
    assert(out.deep_view() =~= paths_of(leaves.deep_view()));
    out
}

/// Samples up to `SAMPLE_SIZE` of the documents that a container hands out and
/// records the field paths present, the types observed, and the scalar values
/// seen.
pub fn infer_container_schema(database: &str, container: &str, docs: &Vec<Value>) -> (out:
    ContainerSchema)
    ensures
        out@ == schema_of(database@, container@, sample(docs.deep_view())),
{
    let ghost all = docs.deep_view();
    let mut found: Vec<(String, Found)> = Vec::new();
    let mut sampled: usize = 0;
    assert(found.deep_view() =~= Seq::<(Text, ValueView)>::empty());
    while sampled < SAMPLE_SIZE && sampled < docs.len()
        invariant
            all == docs.deep_view(),
            sampled <= docs@.len(),
            sampled <= SAMPLE_SIZE,
            found.deep_view() == all_leaves(all.take(sampled as int)),
        decreases docs.len() - sampled,
    {
        assert(all.take(sampled + 1).drop_last() =~= all.take(sampled as int));
        assert(all.take(sampled + 1).last() == docs@[sampled as int]@);
        proof {
            reveal_strlit("");
            assert(""@ =~= Seq::<char>::empty());
        }
        flatten("", &docs[sampled], 0, &mut found);
        sampled = sampled + 1;
    }
    assert(all.take(sampled as int) =~= sample(all));

    let ghost seen = found.deep_view();
    let all_paths = paths_among(&found);
    let paths = distinct_of(&all_paths);
    let mut fields: Vec<FieldInfo> = Vec::new();
    let mut i: usize = 0;
    while i < paths.len()
        invariant
            seen == found.deep_view(),
            i <= paths@.len(),
            fields@.len() == i,
            forall|j: int| 0 <= j < i ==> (#[trigger] fields@[j])@ == field_of(seen, paths@[j]@),
        decreases paths.len() - i,
    {
        fields.push(field_at(&found, paths[i].as_str()));
        i = i + 1;
    }
    assert(fields.deep_view() =~= fields_by_name(seen)) by {
        let listed = distinct(paths_of(seen));
        assert(listed.len() == paths@.len());
        assert forall|j: int| 0 <= j < fields@.len() implies fields.deep_view()[j]
            == #[trigger] fields_by_name(seen)[j] by {
            assert(fields@[j]@ == field_of(seen, paths@[j]@));
            assert(paths.deep_view()[j] == paths@[j]@);
        }
    }
    ContainerSchema {
        database: database.to_owned(),
        container: container.to_owned(),
        sampled_docs: sampled,
        fields: arrange(fields),
    }
}

// ── What holds of every schema ───────────────────────────────────────────

proof fn field_before_is_order()
    ensures
        is_order(|a: FieldView, b: FieldView| field_before(a, b)),
{
    let before = |a: FieldView, b: FieldView| field_before(a, b);
    assert forall|a: FieldView, b: FieldView| #[trigger] before(a, b) implies !before(b, a) by {
        if precedes(a.name, b.name) && precedes(b.name, a.name) {
            precedes_is_transitive(a.name, b.name, a.name);
            precedes_is_irreflexive(a.name);
        }
    }
    assert forall|a: FieldView, b: FieldView, c: FieldView|
        !#[trigger] before(a, b) && !#[trigger] before(b, c) implies !before(a, c) by {
        names_in_turn(a.name, b.name, c.name);
    }
}

proof fn scalars_are_few(values: Seq<ValueView>)
    ensures
        scalars_of(values).finite(),
        scalars_of(values).len() <= values.len(),
    decreases values.len(),
{
    if values.len() > 0 {
        scalars_are_few(values.drop_last());
    }
}

proof fn values_where_seen(leaves: Seq<(Text, ValueView)>, path: Text)
    ensures
        values_at(leaves, path).len() <= leaves.len(),
        values_at(leaves, path).len() > 0 <==> paths_of(leaves).contains(path),
    decreases leaves.len(),
{
    let paths = paths_of(leaves);
    if leaves.len() > 0 {
        let front = leaves.drop_last();
        values_where_seen(front, path);
        if paths_of(front).contains(path) {
            let k = choose|k: int| 0 <= k < front.len() && paths_of(front)[k] == path;
            assert(paths[k] == path);
        }
        if paths.contains(path) {
            let k = choose|k: int| 0 <= k < paths.len() && paths[k] == path;
            if k < front.len() {
                assert(paths_of(front)[k] == path);
            }
        }
        if leaves.last().0 == path {
            assert(paths[leaves.len() - 1] == path);
        }
    }
}

/// The fields of a schema are the paths that occur in the sampled documents,
/// each exactly once and in order: the more often seen first, then by name.
/// Every one of them was seen, and holds no more values than it was seen with.
pub proof fn schema_lists_every_path(database: Text, container: Text, docs: Seq<ValueView>)
    ensures
        ({
            let fields = schema_of(database, container, docs).fields;
            let paths = paths_of(all_leaves(docs));
            &&& forall|path: Text| #[trigger]
                paths.contains(path) <==> exists|i: int|
                    0 <= i < fields.len() && (#[trigger] fields[i]).name == path
            &&& forall|i: int, j: int|
                0 <= i < j < fields.len() ==> field_before(#[trigger] fields[i], #[trigger] fields[j])
            &&& forall|i: int|
                0 <= i < fields.len() ==> {
                    let f = #[trigger] fields[i];
                    &&& f == field_of(all_leaves(docs), f.name)
                    &&& f.distinct == f.values.len()
                    &&& f.distinct <= f.seen_in
                    &&& f.seen_in > 0
                }
        }),
{
    let all = all_leaves(docs);
    let paths = distinct(paths_of(all));
    let plain = fields_by_name(all);
    let before = |a: FieldView, b: FieldView| field_before(a, b);
    let fields = arranged(plain, before);
    assert(schema_of(database, container, docs).fields == fields);
    distinct_is_ascending(paths_of(all));
    arranged_is_permutation(plain, before);
    assert forall|i: int| 0 <= i < fields.len() implies {
        let f = #[trigger] fields[i];
        &&& f == field_of(all, f.name)
        &&& paths_of(all).contains(f.name)
        &&& f.distinct == f.values.len()
        &&& f.distinct <= f.seen_in
        &&& f.seen_in > 0
    } by {
        same_items(fields, plain);
        assert(fields.contains(fields[i]));
        assert(plain.contains(fields[i]));
        let k = choose|k: int| 0 <= k < plain.len() && plain[k] == fields[i];
        assert(paths.contains(paths[k]));
        scalars_are_few(values_at(all, paths[k]));
        values_where_seen(all, paths[k]);
    }
    assert forall|path: Text| #[trigger] paths_of(all).contains(path) implies exists|i: int|
        0 <= i < fields.len() && (#[trigger] fields[i]).name == path by {
        assert(paths.contains(path));
        let k = choose|k: int| 0 <= k < paths.len() && paths[k] == path;
        same_items(fields, plain);
        assert(plain[k].name == path);
        assert(plain.contains(plain[k]));
        assert(fields.contains(plain[k]));
        let i = choose|i: int| 0 <= i < fields.len() && fields[i] == plain[k];
        assert(fields[i].name == path);
    }
    field_before_is_order();
    arranged_in_order(plain, before);
    assert forall|a: int, b: int| 0 <= a < b < plain.len() implies plain[a] != plain[b] by {
        precedes_is_irreflexive(paths[a]);
        assert(precedes(paths[a], paths[b]));
    }
    assert(plain.no_duplicates());
    plain.lemma_multiset_has_no_duplicates();
    fields.lemma_multiset_has_no_duplicates_conv();
    assert forall|i: int, j: int| 0 <= i < j < fields.len() implies field_before(
        #[trigger] fields[i],
        #[trigger] fields[j],
    ) by {
        assert(!before(fields[j], fields[i]));
        if fields[i].seen_in == fields[j].seen_in {
            precedes_is_total(fields[i].name, fields[j].name);
            if fields[i].name == fields[j].name {
                assert(fields[i] == field_of(all, fields[i].name));
                assert(fields[j] == field_of(all, fields[j].name));
                assert(fields[i] == fields[j]);
            }
        }
    }
}

/// Whether no object that is descended into has two members of one name.
pub open spec fn unrepeated(members: Seq<(Text, ValueView)>, depth: nat) -> bool
    decreases MAX_DEPTH - depth,
{
    &&& forall|i: int, j: int|
        0 <= i < j < members.len() ==> (#[trigger] members[i]).0 != (#[trigger] members[j]).0
    &&& forall|i: int|
        0 <= i < members.len() ==> match (#[trigger] members[i]).1 {
            ValueView::Object(inner) => depth + 1 < MAX_DEPTH ==> unrepeated(inner, depth + 1),
            _ => true,
        }
}

/// Whether `doc` is a document: an object whose members have names, none of
/// them twice.
pub open spec fn is_document(doc: ValueView) -> bool {
    match doc {
        ValueView::Object(members) => {
            &&& unrepeated(members, 0)
            &&& forall|i: int| 0 <= i < members.len() ==> (#[trigger] members[i]).0.len() > 0
        },
        _ => false,
    }
}

spec fn base(prefix: Text) -> Seq<Text> {
    if prefix.len() == 0 {
        Seq::empty()
    } else {
        names(prefix)
    }
}

spec fn can_hold(prefix: Text, members: Seq<(Text, ValueView)>) -> bool {
    &&& !cut_short(prefix)
    &&& prefix.len() > 0 || forall|i: int|
        0 <= i < members.len() ==> (#[trigger] members[i]).0.len() > 0
}

/// Whether `path` leads below `prefix`, through one of `members`.
spec fn below(prefix: Text, members: Seq<(Text, ValueView)>, path: Text) -> bool {
    let n = base(prefix).len() as int;
    &&& path.len() > 0
    &&& names(path).len() > n
    &&& names(path).take(n) == base(prefix)
    &&& exists|j: int| 0 <= j < members.len() && (#[trigger] members[j]).0 == names(path)[n]
}

proof fn step_below(prefix: Text, key: Text)
    requires
        !cut_short(prefix),
        prefix.len() > 0 || key.len() > 0,
    ensures
        !cut_short(child_path(prefix, key)),
        child_path(prefix, key).len() > 0,
        names(child_path(prefix, key)) == base(prefix).push(key),
{
    split_undoes_join(prefix, key);
    if prefix.len() == 0 {
        escaped_is_no_shorter(key);
        assert(base(prefix).push(key) =~= seq![key]);
    }
}

proof fn leaves_lie_below(prefix: Text, members: Seq<(Text, ValueView)>, depth: nat)
    requires
        can_hold(prefix, members),
    ensures
        forall|i: int|
            0 <= i < leaves(prefix, members, depth).len() ==> below(
                prefix,
                members,
                (#[trigger] leaves(prefix, members, depth)[i]).0,
            ),
    decreases MAX_DEPTH - depth, members.len(),
{
    if members.len() > 0 {
        let all = leaves(prefix, members, depth);
        let front = members.drop_last();
        let key = members.last().0;
        let path = child_path(prefix, key);
        let n = base(prefix).len() as int;
        assert forall|i: int| 0 <= i < front.len() implies (#[trigger] front[i]).0
            == members[i].0 by {}
        leaves_lie_below(prefix, front, depth);
        let early = leaves(prefix, front, depth);
        step_below(prefix, key);
        assert(members[members.len() - 1].0 == key);
        assert(names(path).take(n) =~= base(prefix));
        assert(below(prefix, members, path));
        let inner = match members.last().1 {
            ValueView::Object(inner) if depth + 1 < MAX_DEPTH => {
                leaves_lie_below(path, inner, depth + 1);
                leaves(path, inner, depth + 1)
            },
            _ => Seq::empty(),
        };
        assert forall|i: int| 0 <= i < all.len() implies below(
            prefix,
            members,
            (#[trigger] all[i]).0,
        ) by {
            if i < early.len() {
                assert(all[i] == early[i]);
                let j = choose|j: int|
                    0 <= j < front.len() && (#[trigger] front[j]).0 == names(all[i].0)[n];
                assert(members[j].0 == names(all[i].0)[n]);
            } else if i == early.len() {
                assert(all[i].0 == path);
            } else {
                let p = all[i].0;
                assert(all[i] == inner[i - early.len() - 1]);
                assert(names(p).take(n + 1) == names(path));
                assert(names(p).take(n) =~= names(p).take(n + 1).take(n));
                assert(names(p)[n] == names(p).take(n + 1)[n]);
            }
        }
    }
}

proof fn leaves_differ(prefix: Text, members: Seq<(Text, ValueView)>, depth: nat)
    requires
        can_hold(prefix, members),
        unrepeated(members, depth),
    ensures
        paths_of(leaves(prefix, members, depth)).no_duplicates(),
    decreases MAX_DEPTH - depth, members.len(),
{
    if members.len() > 0 {
        let all = leaves(prefix, members, depth);
        let front = members.drop_last();
        let key = members.last().0;
        let path = child_path(prefix, key);
        let n = base(prefix).len() as int;
        let early = leaves(prefix, front, depth);
        assert(unrepeated(front, depth)) by {
            assert forall|i: int| 0 <= i < front.len() implies front[i] == members[i] by {}
        }
        leaves_differ(prefix, front, depth);
        leaves_lie_below(prefix, front, depth);
        step_below(prefix, key);
        let inner = match members.last().1 {
            ValueView::Object(inner) if depth + 1 < MAX_DEPTH => {
                assert(members[members.len() - 1] == members.last());
                leaves_differ(path, inner, depth + 1);
                leaves_lie_below(path, inner, depth + 1);
                leaves(path, inner, depth + 1)
            },
            _ => Seq::empty(),
        };
        let paths = paths_of(all);
        assert forall|i: int| early.len() <= i < all.len() implies names(#[trigger] paths[i])[n]
            == key && names(paths[i]).len() > n && (i > early.len() ==> names(paths[i]).len() > n
            + 1) by {
            if i > early.len() {
                assert(all[i] == inner[i - early.len() - 1]);
                assert(names(paths[i]).take(n + 1) == names(path));
                assert(names(paths[i])[n] == names(paths[i]).take(n + 1)[n]);
            }
        }
        assert forall|i: int, j: int| 0 <= i < j < all.len() implies paths[i] != paths[j] by {
            if j < early.len() {
                assert(paths_of(early)[i] != paths_of(early)[j]);
            } else if i < early.len() {
                assert(all[i] == early[i]);
                let m = choose|m: int|
                    0 <= m < front.len() && (#[trigger] front[m]).0 == names(all[i].0)[n];
                assert(members[m].0 != members[members.len() - 1].0);
                assert(names(paths[j])[n] == key);
            } else if i == early.len() {
                assert(names(paths[i]).len() == n + 1);
                assert(names(paths[j]).len() > n + 1);
            } else {
                assert(paths_of(inner)[i - early.len() - 1] != paths_of(inner)[j - early.len() - 1]);
            }
        }
    }
}

proof fn seen_once(leaves: Seq<(Text, ValueView)>, path: Text)
    requires
        paths_of(leaves).no_duplicates(),
    ensures
        values_at(leaves, path).len() <= 1,
    decreases leaves.len(),
{
    if leaves.len() > 0 {
        let front = leaves.drop_last();
        assert(paths_of(front) =~= paths_of(leaves).drop_last());
        seen_once(front, path);
        if leaves.last().0 == path {
            values_where_seen(front, path);
            if paths_of(front).contains(path) {
                let k = choose|k: int| 0 <= k < front.len() && paths_of(front)[k] == path;
                assert(paths_of(leaves)[k] == paths_of(leaves)[leaves.len() - 1]);
            }
        }
    }
}

proof fn values_add_up(a: Seq<(Text, ValueView)>, b: Seq<(Text, ValueView)>, path: Text)
    ensures
        values_at(a + b, path) == values_at(a, path) + values_at(b, path),
    decreases b.len(),
{
    if b.len() == 0 {
        assert(a + b =~= a);
        assert(values_at(a, path) + values_at(b, path) =~= values_at(a, path));
    } else {
        values_add_up(a, b.drop_last(), path);
        assert((a + b).drop_last() =~= a + b.drop_last());
        assert(values_at(a + b, path) =~= values_at(a, path) + values_at(b, path));
    }
}

/// One document contributes at most one value to each path, so a field is
/// never seen in more documents than were sampled, nor with more values.
pub proof fn one_value_per_document(docs: Seq<ValueView>, path: Text)
    requires
        forall|i: int| 0 <= i < docs.len() ==> is_document(#[trigger] docs[i]),
    ensures
        field_of(all_leaves(docs), path).seen_in <= docs.len(),
        field_of(all_leaves(docs), path).distinct <= docs.len(),
    decreases docs.len(),
{
    let all = all_leaves(docs);
    if docs.len() > 0 {
        let front = docs.drop_last();
        assert forall|i: int| 0 <= i < front.len() implies is_document(#[trigger] front[i]) by {
            assert(front[i] == docs[i]);
        }
        one_value_per_document(front, path);
        assert(is_document(docs[docs.len() - 1]));
        let members = docs.last()->Object_0;
        let top = Seq::<char>::empty();
        assert(can_hold(top, members));
        leaves_differ(top, members, 0);
        seen_once(leaves(top, members, 0), path);
        values_add_up(all_leaves(front), leaves(top, members, 0), path);
    }
    scalars_are_few(values_at(all, path));
}

// ── From a sampled path back to the value ────────────────────────────────

/// Whether the names in an object, as far as it is descended into, are ASCII,
/// and no two of one object differ only by case.
pub open spec fn has_plain_names(members: Seq<(Text, ValueView)>, depth: nat) -> bool
    decreases MAX_DEPTH - depth,
{
    &&& forall|i: int, j: int|
        0 <= i < j < members.len() ==> ascii_lowered((#[trigger] members[i]).0) != ascii_lowered(
            (#[trigger] members[j]).0,
        )
    &&& forall|i: int|
        0 <= i < members.len() ==> is_ascii((#[trigger] members[i]).0) && (match members[i].1 {
            ValueView::Object(inner) => depth + 1 < MAX_DEPTH ==> has_plain_names(inner, depth + 1),
            _ => true,
        })
}

/// Whether `listed` is what a sample lists of the value `found`: the value
/// itself, or an empty object in place of one that is descended into.
pub open spec fn stands_for(listed: ValueView, found: ValueView) -> bool {
    listed == found || (found is Object && listed == ValueView::Object(Seq::empty()))
}

proof fn named_earlier(front: Seq<(Text, ValueView)>, last: (Text, ValueView), name: Text)
    ensures
        member_named(front.push(last), name) == (match member_named(front, name) {
            Some(v) => Some(v),
            None => if lowered(last.0) == name {
                Some(last.1)
            } else {
                None
            },
        }),
    decreases front.len(),
{
    let all = front.push(last);
    if front.len() > 0 {
        assert(all.drop_first() =~= front.drop_first().push(last));
        named_earlier(front.drop_first(), last, name);
    } else {
        assert(all[0] == last);
        assert(all.drop_first() =~= Seq::<(Text, ValueView)>::empty());
        assert(member_named(all.drop_first(), name) is None);
    }
}

proof fn not_named(members: Seq<(Text, ValueView)>, name: Text)
    requires
        forall|i: int| 0 <= i < members.len() ==> lowered((#[trigger] members[i]).0) != name,
    ensures
        member_named(members, name) is None,
    decreases members.len(),
{
    if members.len() > 0 {
        let rest = members.drop_first();
        assert(lowered(members[0].0) != name);
        assert forall|i: int| 0 <= i < rest.len() implies lowered((#[trigger] rest[i]).0)
            != name by {
            assert(rest[i] == members[i + 1]);
        }
        not_named(rest, name);
    }
}

proof fn leaf_leads_back(prefix: Text, members: Seq<(Text, ValueView)>, depth: nat, i: int)
    requires
        can_hold(prefix, members),
        is_ascii(prefix),
        has_plain_names(members, depth),
        0 <= i < leaves(prefix, members, depth).len(),
    ensures
        ({
            let leaf = leaves(prefix, members, depth)[i];
            let found = value_under(
                ValueView::Object(members),
                all_ascii_lowered(names(leaf.0)).skip(base(prefix).len() as int),
            );
            is_ascii(leaf.0) && found is Some && stands_for(leaf.1, found->0)
        }),
    decreases MAX_DEPTH - depth, members.len(),
{
    let all = leaves(prefix, members, depth);
    let front = members.drop_last();
    let last = members.last();
    let key = last.0;
    let path = child_path(prefix, key);
    let n = base(prefix).len() as int;
    let early = leaves(prefix, front, depth);
    let leaf = all[i];
    let rest = all_ascii_lowered(names(leaf.0)).skip(n);
    assert(members =~= front.push(last));
    assert forall|k: int| 0 <= k < front.len() implies front[k] == members[k] by {}
    assert(has_plain_names(front, depth));
    assert(can_hold(prefix, front));
    leaves_lie_below(prefix, front, depth);
    step_below(prefix, key);
    assert(is_ascii(members[members.len() - 1].0));
    child_path_is_ascii(prefix, key);
    if i < early.len() {
        assert(leaf == early[i]);
        leaf_leads_back(prefix, front, depth, i);
        assert(below(prefix, front, early[i].0));
        assert(rest[0] == ascii_lowered(names(leaf.0)[n]));
        named_earlier(front, last, rest[0]);
    } else {
        let lower = ascii_lowered(key);
        not_named_before(front, last, depth);
        named_earlier(front, last, lower);
        if i == early.len() {
            assert(leaf.0 == path);
            assert(rest =~= seq![lower]);
            assert(rest.drop_first() =~= Seq::<Text>::empty());
            assert(value_under(last.1, rest.drop_first()) == Some(last.1));
        } else {
            let inner = last.1->Object_0;
            let deeper = leaves(path, inner, depth + 1);
            let k = i - early.len() - 1;
            assert(leaf == deeper[k]);
            assert(members[members.len() - 1] == last);
            leaves_lie_below(path, inner, depth + 1);
            leaf_leads_back(path, inner, depth + 1, k);
            assert(below(path, inner, deeper[k].0));
            assert(names(leaf.0).take(n + 1) == names(path));
            assert(rest[0] == ascii_lowered(names(leaf.0).take(n + 1)[n]));
            assert(rest.drop_first() =~= all_ascii_lowered(names(leaf.0)).skip(n + 1));
        }
    }
}

proof fn not_named_before(front: Seq<(Text, ValueView)>, last: (Text, ValueView), depth: nat)
    requires
        has_plain_names(front.push(last), depth),
    ensures
        member_named(front, ascii_lowered(last.0)) is None,
{
    let all = front.push(last);
    assert forall|i: int| 0 <= i < front.len() implies lowered((#[trigger] front[i]).0)
        != ascii_lowered(last.0) by {
        assert(all[i] == front[i]);
        assert(all[front.len() as int] == last);
        assert(is_ascii(all[i].0));
    }
    not_named(front, ascii_lowered(last.0));
}

/// Every path that a sample lists leads back to the value it was listed for: in
/// a document with ASCII names, no two of which differ only by case, looking the
/// lowercased path up gives that value, whatever dots or backslashes the names
/// hold.
pub proof fn sampled_paths_lead_back(doc: ValueView, i: int)
    requires
        is_document(doc),
        has_plain_names(doc->Object_0, 0),
        0 <= i < flattened(Seq::empty(), doc, 0).len(),
    ensures
        ({
            let leaf = flattened(Seq::empty(), doc, 0)[i];
            let found = value_at(doc, lowered(leaf.0));
            found is Some && stands_for(leaf.1, found->0)
        }),
{
    let members = doc->Object_0;
    let top = Seq::<char>::empty();
    let leaf = leaves(top, members, 0)[i];
    leaf_leads_back(top, members, 0, i);
    leaves_lie_below(top, members, 0);
    assert(below(top, members, leaf.0));
    names_of_lowered(leaf.0);
    let lower = all_ascii_lowered(names(leaf.0));
    assert(lower.skip(0) =~= lower);
    assert(ascii_lowered(leaf.0).len() == leaf.0.len());
}

// ── What a sample shows ──────────────────────────────────────────────────

/// What is listed of an object's member `name`, below `prefix` and `depth`
/// objects down: its path with what stands there. Where an object stands there,
/// less than three objects down, its own members are listed behind it.
pub open spec fn listed_of_member(prefix: Text, name: Text, value: ValueView, depth: nat) -> Seq<
    (Text, ValueView),
> {
    let path = child_path(prefix, name);
    if value is Object && depth < 2 {
        seq![(path, ValueView::Object(Seq::empty()))] + leaves(path, value->Object_0, depth + 1)
    } else {
        seq![(path, value)]
    }
}

/// The members of an object are listed one by one, in their order, each with
/// what is below it; of an empty object there is nothing to list.
pub proof fn members_are_listed_in_turn(
    prefix: Text,
    a: Seq<(Text, ValueView)>,
    b: Seq<(Text, ValueView)>,
    name: Text,
    value: ValueView,
    depth: nat,
)
    ensures
        leaves(prefix, a + b, depth) == leaves(prefix, a, depth) + leaves(prefix, b, depth),
        leaves(prefix, seq![(name, value)], depth) == listed_of_member(prefix, name, value, depth),
        leaves(prefix, Seq::empty(), depth).len() == 0,
    decreases b.len(),
{
    let none = Seq::<(Text, ValueView)>::empty();
    let one = seq![(name, value)];
    assert(one.drop_last() =~= none);
    assert(leaves(prefix, none, depth) =~= none);
    assert(none + listed_of_member(prefix, name, value, depth) =~= listed_of_member(
        prefix,
        name,
        value,
        depth,
    ));
    if b.len() == 0 {
        assert(a + b =~= a);
        assert(leaves(prefix, a, depth) + leaves(prefix, b, depth) =~= leaves(prefix, a, depth));
    } else {
        assert((a + b).drop_last() =~= a + b.drop_last());
        members_are_listed_in_turn(prefix, a, b.drop_last(), name, value, depth);
        assert(leaves(prefix, a + b, depth) =~= leaves(prefix, a, depth) + leaves(
            prefix,
            b,
            depth,
        ));
    }
}

/// Documents are listed one by one, each from its top; what is no object has
/// nothing to list.
pub proof fn documents_are_listed_in_turn(docs: Seq<ValueView>, doc: ValueView)
    ensures
        doc is Object ==> all_leaves(docs.push(doc)) == all_leaves(docs) + leaves(
            Seq::empty(),
            doc->Object_0,
            0,
        ),
        !(doc is Object) ==> all_leaves(docs.push(doc)) == all_leaves(docs),
        all_leaves(Seq::empty()).len() == 0,
{
    assert(docs.push(doc).drop_last() =~= docs);
    assert(all_leaves(docs) + Seq::<(Text, ValueView)>::empty() =~= all_leaves(docs));
}

/// Texts, also empty ones, and numbers can be compared, as they are written;
/// nothing else can. A value's type is told by its kind.
pub proof fn texts_and_numbers_can_be_compared(s: Text, n: Option<i64>, b: bool, v: ValueView)
    ensures
        scalar(ValueView::Text(s)) == Some(s),
        scalar(ValueView::Number(s, n)) == Some(s),
        !(v is Text) && !(v is Number) ==> scalar(v) is None,
        v is Text ==> type_of(v) == "string"@,
        v is Number ==> type_of(v) == "number"@,
        v is Bool ==> type_of(v) == "bool"@,
        v is Null ==> type_of(v) == "null"@,
        v is Array ==> type_of(v) == "array"@,
        v is Object ==> type_of(v) == "object"@,
{
}

proof fn values_at_are_those(leaves: Seq<(Text, ValueView)>, path: Text)
    ensures
        values_at(leaves, path) == leaves.filter(
            |l: (Text, ValueView)| l.0 == path,
        ).map_values(|l: (Text, ValueView)| l.1),
    decreases leaves.len(),
{
    reveal(Seq::filter);
    let kept = leaves.filter(|l: (Text, ValueView)| l.0 == path).map_values(
        |l: (Text, ValueView)| l.1,
    );
    if leaves.len() > 0 {
        values_at_are_those(leaves.drop_last(), path);
        assert(values_at(leaves, path) =~= kept);
    } else {
        assert(values_at(leaves, path) =~= kept);
    }
}

proof fn scalars_are_those(values: Seq<ValueView>, s: Text)
    ensures
        scalars_of(values).contains(s) <==> exists|i: int|
            0 <= i < values.len() && scalar(#[trigger] values[i]) == Some(s),
    decreases values.len(),
{
    if values.len() > 0 {
        let front = values.drop_last();
        let last = values.len() - 1;
        scalars_are_those(front, s);
        assert(values[last] == values.last());
        if scalars_of(front).contains(s) {
            let i = choose|i: int| 0 <= i < front.len() && scalar(#[trigger] front[i]) == Some(s);
            assert(values[i] == front[i]);
        }
        if exists|i: int| 0 <= i < values.len() && scalar(#[trigger] values[i]) == Some(s) {
            let i = choose|i: int|
                0 <= i < values.len() && scalar(#[trigger] values[i]) == Some(s);
            if i < last {
                assert(front[i] == values[i]);
            }
        }
    }
}

proof fn types_are_those(values: Seq<ValueView>, t: Text)
    ensures
        types_of(values).contains(t) <==> exists|i: int|
            0 <= i < values.len() && type_of(#[trigger] values[i]) == t,
    decreases values.len(),
{
    let all = types_of(values);
    if values.len() > 0 {
        let front = values.drop_last();
        let last = values.len() - 1;
        let early = types_of(front);
        types_are_those(front, t);
        assert(values[last] == values.last());
        if early.contains(t) {
            let k = choose|k: int| 0 <= k < early.len() && early[k] == t;
            assert(all[k] == t);
            let i = choose|i: int| 0 <= i < front.len() && type_of(#[trigger] front[i]) == t;
            assert(values[i] == front[i]);
        }
        if all.contains(t) && !early.contains(t) {
            let k = choose|k: int| 0 <= k < all.len() && all[k] == t;
            if k < early.len() {
                assert(early[k] == t);
            }
        }
        if type_of(values.last()) == t && !early.contains(t) {
            assert(all[all.len() - 1] == t);
        }
        if exists|i: int| 0 <= i < values.len() && type_of(#[trigger] values[i]) == t {
            let i = choose|i: int| 0 <= i < values.len() && type_of(#[trigger] values[i]) == t;
            if i < last {
                assert(front[i] == values[i]);
            }
        }
    }
}

/// A field says what was seen of it. It was seen as often as its path is listed;
/// its types are those of what stood there; its values are exactly the texts and
/// numbers among them, and they are counted each once.
pub proof fn fields_say_what_was_seen(leaves: Seq<(Text, ValueView)>, path: Text)
    ensures
        ({
            let field = field_of(leaves, path);
            &&& field.name == path
            &&& field.seen_in == leaves.filter(|l: (Text, ValueView)| l.0 == path).len()
            &&& field.distinct == field.values.len()
            &&& forall|s: Text| #[trigger]
                field.values.contains(s) <==> exists|i: int|
                    0 <= i < leaves.len() && (#[trigger] leaves[i]).0 == path && scalar(leaves[i].1)
                        == Some(s)
            &&& forall|t: Text| #[trigger]
                field.types.contains(t) <==> exists|i: int|
                    0 <= i < leaves.len() && (#[trigger] leaves[i]).0 == path && type_of(
                        leaves[i].1,
                    ) == t
        }),
{
    let values = values_at(leaves, path);
    let field = field_of(leaves, path);
    values_at_are_those(leaves, path);
    assert forall|s: Text| #[trigger] field.values.contains(s) <==> exists|i: int|
        0 <= i < leaves.len() && (#[trigger] leaves[i]).0 == path && scalar(leaves[i].1) == Some(
            s,
        ) by {
        scalars_are_those(values, s);
        if field.values.contains(s) {
            let k = choose|k: int| 0 <= k < values.len() && scalar(#[trigger] values[k]) == Some(s);
            assert(values.contains(values[k]));
            at_that_path(leaves, path, values[k]);
            let i = choose|i: int|
                0 <= i < leaves.len() && (#[trigger] leaves[i]).0 == path && leaves[i].1
                    == values[k];
            assert(scalar(leaves[i].1) == Some(s));
        }
        if exists|i: int|
            0 <= i < leaves.len() && (#[trigger] leaves[i]).0 == path && scalar(leaves[i].1)
                == Some(s) {
            let i = choose|i: int|
                0 <= i < leaves.len() && (#[trigger] leaves[i]).0 == path && scalar(leaves[i].1)
                    == Some(s);
            at_that_path(leaves, path, leaves[i].1);
            let k = choose|k: int| 0 <= k < values.len() && values[k] == leaves[i].1;
            assert(scalar(values[k]) == Some(s));
        }
    }
    assert forall|t: Text| #[trigger] field.types.contains(t) <==> exists|i: int|
        0 <= i < leaves.len() && (#[trigger] leaves[i]).0 == path && type_of(leaves[i].1) == t by {
        types_are_those(values, t);
        if field.types.contains(t) {
            let k = choose|k: int| 0 <= k < values.len() && type_of(#[trigger] values[k]) == t;
            assert(values.contains(values[k]));
            at_that_path(leaves, path, values[k]);
            let i = choose|i: int|
                0 <= i < leaves.len() && (#[trigger] leaves[i]).0 == path && leaves[i].1
                    == values[k];
            assert(type_of(leaves[i].1) == t);
        }
        if exists|i: int|
            0 <= i < leaves.len() && (#[trigger] leaves[i]).0 == path && type_of(leaves[i].1)
                == t {
            let i = choose|i: int|
                0 <= i < leaves.len() && (#[trigger] leaves[i]).0 == path && type_of(leaves[i].1)
                    == t;
            at_that_path(leaves, path, leaves[i].1);
            let k = choose|k: int| 0 <= k < values.len() && values[k] == leaves[i].1;
            assert(type_of(values[k]) == t);
        }
    }
}

proof fn at_that_path(leaves: Seq<(Text, ValueView)>, path: Text, v: ValueView)
    ensures
        values_at(leaves, path).contains(v) <==> exists|i: int|
            0 <= i < leaves.len() && (#[trigger] leaves[i]).0 == path && leaves[i].1 == v,
    decreases leaves.len(),
{
    let all = values_at(leaves, path);
    if leaves.len() > 0 {
        let front = leaves.drop_last();
        let last = leaves.len() - 1;
        let early = values_at(front, path);
        at_that_path(front, path, v);
        assert(leaves[last] == leaves.last());
        if all.contains(v) {
            let k = choose|k: int| 0 <= k < all.len() && all[k] == v;
            if k < early.len() {
                assert(early[k] == v);
                let i = choose|i: int|
                    0 <= i < front.len() && (#[trigger] front[i]).0 == path && front[i].1 == v;
                assert(leaves[i] == front[i]);
            }
        }
        if exists|i: int|
            0 <= i < leaves.len() && (#[trigger] leaves[i]).0 == path && leaves[i].1 == v {
            let i = choose|i: int|
                0 <= i < leaves.len() && (#[trigger] leaves[i]).0 == path && leaves[i].1 == v;
            if i < last {
                assert(front[i] == leaves[i]);
                assert(early.contains(v));
                let k = choose|k: int| 0 <= k < early.len() && early[k] == v;
                assert(all[k] == v);
            } else {
                assert(all[all.len() - 1] == v);
            }
        }
    }
}

/// A schema is of its container and of as many documents as were sampled. The
/// fields that more documents carry come first; among those that equally many
/// carry, the name decides.
pub proof fn common_fields_come_first(
    database: Text,
    container: Text,
    docs: Seq<ValueView>,
    i: int,
    j: int,
)
    ensures
        ({
            let schema = schema_of(database, container, docs);
            &&& schema.database == database
            &&& schema.container == container
            &&& schema.sampled_docs == docs.len()
            &&& 0 <= i < j < schema.fields.len() ==> {
                let (a, b) = (schema.fields[i], schema.fields[j]);
                &&& a.seen_in >= b.seen_in
                &&& a.seen_in == b.seen_in ==> precedes(a.name, b.name)
            }
        }),
{
    schema_lists_every_path(database, container, docs);
    let fields = schema_of(database, container, docs).fields;
    if 0 <= i < j < fields.len() {
        assert(field_before(fields[i], fields[j]));
    }
}

/// The first twenty documents are sampled, or all where there are fewer.
pub proof fn twenty_documents_are_sampled(docs: Seq<ValueView>)
    ensures
        docs.len() <= 20 ==> sample(docs) == docs,
        docs.len() > 20 ==> sample(docs) == docs.take(20),
{
}

} // verus!
