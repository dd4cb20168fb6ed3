//! The documents that a trace finds: how they are asked for, and what a card
//! shows of each.

use crate::services::cosmos::{is_system_field, system_field};
use crate::services::discover::{KeyCandidate, KeyView};
use crate::services::document::{
    lookup, lookup_text, scalar_text, shortened, text_at, text_of_scalar, truncate, value_at,
};
use crate::services::paths::{
    child_path, join_path, leaf, names, path_round_trips, path_through, split_path,
};
use crate::services::time::{format_time, millis_of, parse_time, time_text};
use crate::text::{
    byte_len, byte_length, escape, escaped, is_listed, lowered, pieces, pieces_go_on, pieces_is_never_empty,
    split, to_lower, Text,
};
use crate::value::{Value, ValueView};
use vstd::prelude::*;

verus! {

/// How many documents of one container are shown. A single flow producing more
/// than this is pathological.
pub const MAX_BLOCKS: usize = 200;

/// Facts shown on a block card before it stops being "essential data".
pub const MAX_FACTS: usize = 3;

/// How long a fact may be.
pub const FACT_LENGTH: usize = 28;

/// What to trace, and how to read each document once found.
#[derive(Debug, PartialEq)]
pub struct TraceSpec {
    pub key: KeyCandidate,
    pub value: String,
    /// Lowercased field paths; the empty text means "not chosen".
    pub time_field: String,
    pub label_field: String,
    /// Fields worth showing on a card, best first.
    pub fact_fields: Vec<String>,
}

/// What to trace, as contracts speak of it.
pub struct TraceSpecView {
    pub key: KeyView,
    pub value: Text,
    pub time_field: Text,
    pub label_field: Text,
    pub fact_fields: Seq<Text>,
}

impl View for TraceSpec {
    type V = TraceSpecView;

    open spec fn view(&self) -> TraceSpecView {
        TraceSpecView {
            key: self.key@,
            value: self.value@,
            time_field: self.time_field@,
            label_field: self.label_field@,
            fact_fields: self.fact_fields.deep_view(),
        }
    }
}

// ── Queries ──────────────────────────────────────────────────────────────

/// `names` as bracketed, quoted steps down from `front`.
pub open spec fn bracketed(front: Text, names: Seq<Text>) -> Text
    decreases names.len(),
{
    if names.len() == 0 {
        front
    } else {
        bracketed(front, names.drop_last()) + "[\""@ + escaped(names.last(), '"') + "\"]"@
    }
}

/// A dotted field path as it is written in a query.
pub open spec fn path_in_query(path: Text) -> Text {
    bracketed("c"@, names(path))
}

/// Renders a dotted field path in brackets, so field names with spaces, dashes
/// or reserved words survive.
pub fn sql_path(path: &str) -> (out: String)
    ensures
        out@ == path_in_query(path@),
{
    let parts = split_path(path);
    let ghost all = parts.deep_view();
    let mut out = "c".to_owned();
    let mut i: usize = 0;
    while i < parts.len()
        invariant
            all == parts.deep_view(),
            i <= parts@.len(),
            out@ == bracketed("c"@, all.take(i as int)),
        decreases parts.len() - i,
    {
        assert(all.take(i + 1).drop_last() =~= all.take(i as int));
        assert(all.take(i + 1).last() == parts@[i as int]@);
        let name = escape(parts[i].as_str(), '"');
        out.append("[\"");
        out.append(name.as_str());
        out.append("\"]");
        i = i + 1;
    }
    assert(all.take(i as int) =~= all);
    out
}

/// The query for the documents whose field `field` has a value. The store is
/// typed: a numeric id stored as a number won't match a text parameter, and the
/// user just typed characters, so both are tried when the input could be
/// either.
pub open spec fn query_text(field: Text, numeric: bool) -> Text {
    let path = path_in_query(field);
    if numeric {
        "SELECT * FROM c WHERE "@ + path + " = @v OR "@ + path + " = @n"@
    } else {
        "SELECT * FROM c WHERE "@ + path + " = @v"@
    }
}

/// The query for documents in which the field is null, for values that cannot
/// be passed as parameters.
pub open spec fn null_query_text(field: Text) -> Text {
    "SELECT * FROM c WHERE "@ + path_in_query(field) + " = null"@
}

/// The query for the documents whose field `field` has the value of the
/// parameter `@v`, or also of the parameter `@n` where the value that is traced
/// could be a number.
pub fn build_query(field: &str, numeric: bool) -> (out: String)
    ensures
        out@ == query_text(field@, numeric),
{
    let path = sql_path(field);
    let mut out = "SELECT * FROM c WHERE ".to_owned();
    out.append(path.as_str());
    if numeric {
        out.append(" = @v OR ");
        out.append(path.as_str());
        out.append(" = @n");
    } else {
        out.append(" = @v");
    }
    out
}

/// The query that stands in where the value cannot be passed as a parameter.
pub fn build_null_query(field: &str) -> (out: String)
    ensures
        out@ == null_query_text(field@),
{
    let path = sql_path(field);
    let mut out = "SELECT * FROM c WHERE ".to_owned();
    out.append(path.as_str());
    out.append(" = null");
    out
}

// ── Blocks ───────────────────────────────────────────────────────────────

/// One document of a trace, as a card shows it.
#[derive(Debug, PartialEq)]
pub struct Block {
    /// Stable across the sort, so a selected card stays selected.
    pub id: String,
    pub label: String,
    /// Epoch milliseconds, when a usable time field was found.
    pub at: Option<i64>,
    pub at_text: String,
    pub facts: Vec<(String, String)>,
    /// Where the document actually lives. Once lanes can be something other
    /// than containers, the card is the only thing that still knows.
    pub container: String,
    /// The document as returned, for the detail panel. A card can only ever
    /// show a summary; this is what it summarises.
    pub doc: Value,
}

/// One document of a trace, as contracts speak of it.
pub struct BlockView {
    pub id: Text,
    pub label: Text,
    pub at: Option<i64>,
    pub at_text: Text,
    pub facts: Seq<(Text, Text)>,
    pub container: Text,
    pub doc: ValueView,
}

impl View for Block {
    type V = BlockView;

    open spec fn view(&self) -> BlockView {
        BlockView {
            id: self.id@,
            label: self.label@,
            at: self.at,
            at_text: self.at_text@,
            facts: self.facts.deep_view(),
            container: self.container@,
            doc: self.doc@,
        }
    }
}

impl DeepView for Block {
    type V = BlockView;

    open spec fn deep_view(&self) -> BlockView {
        self@
    }
}

impl Clone for Block {
    fn clone(&self) -> (out: Self)
        ensures
            out@ == self@,
    {
        let mut facts: Vec<(String, String)> = Vec::new();
        let mut i: usize = 0;
        while i < self.facts.len()
            invariant
                i <= self.facts@.len(),
                facts@.len() == i,
                forall|j: int|
                    0 <= j < i ==> (#[trigger] facts@[j]).0@ == self.facts@[j].0@ && facts@[j].1@
                        == self.facts@[j].1@,
            decreases self.facts.len() - i,
        {
            let fact = &self.facts[i];
            facts.push((fact.0.clone(), fact.1.clone()));
            i = i + 1;
        }
        assert(facts.deep_view() =~= self.facts.deep_view());
        Block {
            id: self.id.clone(),
            label: self.label.clone(),
            at: self.at,
            at_text: self.at_text.clone(),
            facts,
            container: self.container.clone(),
            doc: self.doc.clone(),
        }
    }
}

/// Facts for a card, and the lowercased paths that are not to be shown again.
pub struct FactsView {
    pub facts: Seq<(Text, Text)>,
    pub taken: Seq<Text>,
}

/// The facts that the fields `fields` of `doc` make, in their order, as long
/// as there is room: a field that is taken, or has no text, makes none.
pub open spec fn preferred_facts(
    doc: ValueView,
    fields: Seq<Text>,
    taken: Seq<Text>,
) -> FactsView
    decreases fields.len(),
{
    if fields.len() == 0 {
        FactsView { facts: Seq::empty(), taken }
    } else {
        let front = preferred_facts(doc, fields.drop_last(), taken);
        let path = fields.last();
        if front.facts.len() >= MAX_FACTS || front.taken.contains(path) {
            front
        } else {
            match text_at(doc, path) {
                Some(text) => FactsView {
                    facts: front.facts.push(
                        (names(path).last(), shortened(text, FACT_LENGTH as nat)),
                    ),
                    taken: front.taken.push(path),
                },
                None => front,
            }
        }
    }
}

/// The lowercased path of a document's member, which is what the fields of a
/// trace are known by.
pub open spec fn member_id(name: Text) -> Text {
    lowered(child_path(Seq::empty(), name))
}

/// `facts`, and behind them the short scalars among `members`, in their order,
/// as long as there is room: one that is taken, or metadata of the store, is
/// passed over.
pub open spec fn filled_facts(
    facts: Seq<(Text, Text)>,
    members: Seq<(Text, ValueView)>,
    taken: Seq<Text>,
) -> Seq<(Text, Text)>
    decreases members.len(),
{
    if members.len() == 0 {
        facts
    } else {
        let front = filled_facts(facts, members.drop_last(), taken);
        let name = members.last().0;
        if front.len() >= MAX_FACTS || is_system_field(name) || taken.contains(member_id(name)) {
            front
        } else {
            match text_of_scalar(members.last().1) {
                Some(text) if byte_length(text) <= FACT_LENGTH => front.push((name, text)),
                _ => front,
            }
        }
    }
}

/// The facts shown of `doc`: first the fields that discovery already judged
/// descriptive, then whatever short scalars the document has, so that a card is
/// never blank. The key, the time and the label are not repeated.
pub open spec fn facts_of(doc: ValueView, spec: TraceSpecView, key_field: Text) -> Seq<(Text, Text)> {
    let first = preferred_facts(
        doc,
        spec.fact_fields,
        seq![lowered(key_field), spec.time_field, spec.label_field],
    );
    match doc {
        ValueView::Object(members) => filled_facts(first.facts, members, first.taken),
        _ => first.facts,
    }
}

/// The card of the document `doc`, found in `container_path`, whose field
/// `key_field` carries the key.
pub open spec fn block_of(
    doc: ValueView,
    spec: TraceSpecView,
    container_path: Text,
    key_field: Text,
    id: Text,
) -> BlockView {
    let at = match value_at(doc, spec.time_field) {
        Some(v) => millis_of(v),
        None => None,
    };
    BlockView {
        id,
        label: match text_at(doc, spec.label_field) {
            Some(text) => text,
            None => pieces(container_path, '/').last(),
        },
        at,
        at_text: match at {
            Some(millis) => time_text(millis),
            None => Seq::empty(),
        },
        facts: facts_of(doc, spec, key_field),
        container: container_path,
        doc,
    }
}

fn fill_facts(
    facts: &mut Vec<(String, String)>,
    members: &Vec<(String, Value)>,
    Ghost(all): Ghost<Seq<(Text, ValueView)>>,
    taken: &Vec<String>,
)
    requires
        all.len() == members@.len(),
        forall|i: int|
            0 <= i < all.len() ==> #[trigger] all[i] == (members@[i].0@, members@[i].1@),
    ensures
        final(facts).deep_view() == filled_facts(old(facts).deep_view(), all, taken.deep_view()),
{
    let ghost before = facts.deep_view();
    let mut i: usize = 0;
    assert(filled_facts(before, all.take(0), taken.deep_view()) == before);
    while i < members.len()
        invariant
            all.len() == members@.len(),
            forall|i: int|
                0 <= i < all.len() ==> #[trigger] all[i] == (members@[i].0@, members@[i].1@),
            i <= members@.len(),
            facts.deep_view() == filled_facts(before, all.take(i as int), taken.deep_view()),
        decreases members.len() - i,
    {
        let member = &members[i];
        assert(all.take(i + 1).drop_last() =~= all.take(i as int));
        assert(all.take(i + 1).last() == all[i as int]);
        let ghost here = facts.deep_view();
        assert(here.len() == facts@.len());
        let path = join_path("", member.0.as_str());
        let id = to_lower(path.as_str());
        proof {
            reveal_strlit("");
            assert(""@ =~= Seq::<char>::empty());
        }
        if facts.len() < MAX_FACTS && !system_field(member.0.as_str()) && !is_listed(
            taken,
            id.as_str(),
        ) {
            if let Some(text) = scalar_text(&member.1) {
                if byte_len(text.as_str()) <= FACT_LENGTH {
                    let name = member.0.clone();
                    let ghost fact = (name@, text@);
                    facts.push((name, text));
                    assert(facts.deep_view() =~= here.push(fact));
                }
            }
        }
        i = i + 1;
    }
    assert(all.take(i as int) =~= all);
}

fn find_facts(doc: &Value, spec: &TraceSpec, key_field: &str) -> (facts: Vec<(String, String)>)
    ensures
        facts.deep_view() == facts_of(doc@, spec@, key_field@),
{
    let mut facts: Vec<(String, String)> = Vec::new();
    let mut taken: Vec<String> = Vec::new();
    taken.push(to_lower(key_field));
    taken.push(spec.time_field.clone());
    taken.push(spec.label_field.clone());
    let ghost fields = spec.fact_fields.deep_view();
    let ghost first = seq![lowered(key_field@), spec.time_field@, spec.label_field@];
    assert(taken.deep_view() =~= first);
    assert(facts.deep_view() =~= Seq::<(Text, Text)>::empty());
    let mut i: usize = 0;
    while i < spec.fact_fields.len()
        invariant
            fields == spec.fact_fields.deep_view(),
            i <= spec.fact_fields@.len(),
            facts.deep_view() == preferred_facts(doc@, fields.take(i as int), first).facts,
            taken.deep_view() == preferred_facts(doc@, fields.take(i as int), first).taken,
        decreases spec.fact_fields.len() - i,
    {
        let path = &spec.fact_fields[i];
        assert(fields.take(i + 1).drop_last() =~= fields.take(i as int));
        assert(fields.take(i + 1).last() == path@);
        let ghost facts_before = facts.deep_view();
        let ghost taken_before = taken.deep_view();
        assert(facts_before.len() == facts@.len());
        if facts.len() < MAX_FACTS && !is_listed(&taken, path.as_str()) {
            if let Some(text) = lookup_text(doc, path.as_str()) {
                let name = leaf(path.as_str());
                let short = truncate(text.as_str(), FACT_LENGTH);
                let ghost fact = (name@, short@);
                facts.push((name, short));
                assert(facts.deep_view() =~= facts_before.push(fact));
                taken.push(path.clone());
                assert(taken.deep_view() =~= taken_before.push(path@));
            }
        }
        i = i + 1;
    }
    assert(fields.take(i as int) =~= fields);
    let ghost view = doc@;
    if let Value::Object(members) = doc {
        fill_facts(&mut facts, members, Ghost(view->Object_0), &taken);
    }
    facts
}

/// The card of a document.
pub fn build_block(
    doc: &Value,
    spec: &TraceSpec,
    container_path: &str,
    key_field: &str,
    id: &str,
) -> (out: Block)
    ensures
        out@ == block_of(doc@, spec@, container_path@, key_field@, id@),
{
    let at = match lookup(doc, spec.time_field.as_str()) {
        Some(v) => parse_time(v),
        None => None,
    };
    let label = match lookup_text(doc, spec.label_field.as_str()) {
        Some(text) => text,
        None => {
            // The bare container name reads better on a card than
            // `database/container`.
            let parts = split(container_path, '/');
            proof {
                pieces_is_never_empty(container_path@, '/');
                assert(parts.deep_view().last() == parts@.last()@);
            }
            parts[parts.len() - 1].clone()
        },
    };
    let at_text = match at {
        Some(millis) => format_time(millis),
        None => {
            let none = String::new();
            assert(none@ =~= Seq::<char>::empty());
            none
        },
    };
    Block {
        id: id.to_owned(),
        label,
        at,
        at_text,
        facts: find_facts(doc, spec, key_field),
        container: container_path.to_owned(),
        doc: doc.clone(),
    }
}

/// The query for the path that leads through `keys` names exactly those
/// properties, each in brackets of its own, whatever characters they hold.
pub proof fn query_follows_path(keys: Seq<Text>)
    requires
        keys.len() > 0,
        keys[0].len() > 0 || keys.len() == 1,
    ensures
        path_in_query(path_through(keys)) == bracketed("c"@, keys),
{
    path_round_trips(keys);
}

proof fn preferred_facts_are_few(doc: ValueView, fields: Seq<Text>, taken: Seq<Text>)
    ensures
        ({
            let out = preferred_facts(doc, fields, taken);
            &&& out.facts.len() <= MAX_FACTS
            &&& out.taken.len() == taken.len() + out.facts.len()
            &&& out.taken.take(taken.len() as int) == taken
            &&& forall|i: int|
                0 <= i < out.facts.len() ==> {
                    let path = out.taken[taken.len() + i];
                    &&& (#[trigger] out.facts[i]).0 == names(path).last()
                    &&& out.facts[i].1.len() <= FACT_LENGTH
                    &&& fields.contains(path)
                    &&& !out.taken.take(taken.len() + i).contains(path)
                }
        }),
    decreases fields.len(),
{
    let out = preferred_facts(doc, fields, taken);
    if fields.len() > 0 {
        let front = preferred_facts(doc, fields.drop_last(), taken);
        preferred_facts_are_few(doc, fields.drop_last(), taken);
        let path = fields.last();
        assert(fields[fields.len() - 1] == path);
        assert(out.taken.take(taken.len() as int) =~= front.taken.take(taken.len() as int));
        assert forall|i: int| 0 <= i < out.facts.len() implies {
            let path = out.taken[taken.len() + i];
            &&& (#[trigger] out.facts[i]).0 == names(path).last()
            &&& out.facts[i].1.len() <= FACT_LENGTH
            &&& fields.contains(path)
            &&& !out.taken.take(taken.len() + i).contains(path)
        } by {
            if i < front.facts.len() {
                assert(out.facts[i] == front.facts[i]);
                let own = front.taken[taken.len() + i];
                let k = choose|k: int|
                    0 <= k < fields.drop_last().len() && fields.drop_last()[k] == own;
                assert(fields[k] == own);
                assert(out.taken.take(taken.len() + i) =~= front.taken.take(taken.len() + i));
            } else {
                assert(out.taken.take(taken.len() + i) =~= front.taken);
                reveal_strlit("…");
            }
        }
    } else {
        assert(taken.take(taken.len() as int) =~= taken);
    }
}

proof fn filled_facts_are_few(
    facts: Seq<(Text, Text)>,
    members: Seq<(Text, ValueView)>,
    taken: Seq<Text>,
)
    requires
        facts.len() <= MAX_FACTS,
    ensures
        ({
            let out = filled_facts(facts, members, taken);
            &&& facts.len() <= out.len() <= MAX_FACTS
            &&& out.take(facts.len() as int) == facts
            &&& forall|i: int|
                facts.len() <= i < out.len() ==> {
                    &&& !taken.contains(member_id((#[trigger] out[i]).0))
                    &&& !is_system_field(out[i].0)
                    &&& byte_length(out[i].1) <= FACT_LENGTH
                }
        }),
    decreases members.len(),
{
    let out = filled_facts(facts, members, taken);
    if members.len() > 0 {
        let front = filled_facts(facts, members.drop_last(), taken);
        filled_facts_are_few(facts, members.drop_last(), taken);
        assert(out.take(facts.len() as int) =~= front.take(facts.len() as int));
        assert forall|i: int| facts.len() <= i < out.len() implies {
            &&& !taken.contains(member_id((#[trigger] out[i]).0))
            &&& !is_system_field(out[i].0)
            &&& byte_length(out[i].1) <= FACT_LENGTH
        } by {
            if i < front.len() {
                assert(out[i] == front[i]);
            }
        }
    } else {
        assert(facts.take(facts.len() as int) =~= facts);
    }
}

/// A card shows no more than `MAX_FACTS` facts, and repeats neither the key,
/// the time and the label nor itself. The first facts are those of the chosen
/// fields, none of which is one of these three or comes twice; the others are
/// members of the document that are none of these either, nor metadata.
pub proof fn facts_are_few_and_new(doc: ValueView, spec: TraceSpecView, key_field: Text)
    ensures
        ({
            let own = seq![lowered(key_field), spec.time_field, spec.label_field];
            let first = preferred_facts(doc, spec.fact_fields, own);
            let n = first.facts.len() as int;
            let facts = facts_of(doc, spec, key_field);
            &&& n <= facts.len() <= MAX_FACTS
            &&& facts.take(n) == first.facts
            &&& forall|i: int|
                0 <= i < n ==> {
                    let path = #[trigger] first.taken[3 + i];
                    &&& facts[i].0 == names(path).last()
                    &&& spec.fact_fields.contains(path)
                    &&& !own.contains(path)
                    &&& forall|j: int| 0 <= j < i ==> #[trigger] first.taken[3 + j] != path
                }
            &&& forall|i: int|
                n <= i < facts.len() ==> {
                    let name = (#[trigger] facts[i]).0;
                    &&& !own.contains(member_id(name))
                    &&& !is_system_field(name)
                    &&& forall|j: int| 0 <= j < n ==> #[trigger] first.taken[3 + j] != member_id(name)
                }
        }),
{
    let own = seq![lowered(key_field), spec.time_field, spec.label_field];
    let first = preferred_facts(doc, spec.fact_fields, own);
    let n = first.facts.len() as int;
    let facts = facts_of(doc, spec, key_field);
    preferred_facts_are_few(doc, spec.fact_fields, own);
    if let ValueView::Object(members) = doc {
        filled_facts_are_few(first.facts, members, first.taken);
    } else {
        assert(facts.take(n) =~= first.facts);
    }
    assert(first.taken.take(3) == own);
    assert forall|i: int| 0 <= i < n implies {
        let path = #[trigger] first.taken[3 + i];
        &&& facts[i].0 == names(path).last()
        &&& spec.fact_fields.contains(path)
        &&& !own.contains(path)
        &&& forall|j: int| 0 <= j < i ==> #[trigger] first.taken[3 + j] != path
    } by {
        let path = first.taken[3 + i];
        assert(facts[i] == facts.take(n)[i]);
        assert(first.facts[i].0 == names(path).last());
        let before = first.taken.take(3 + i);
        assert(!before.contains(path));
        if own.contains(path) {
            let k = choose|k: int| 0 <= k < 3 && own[k] == path;
            assert(first.taken.take(3)[k] == path);
            assert(before[k] == path);
        }
        assert forall|j: int| 0 <= j < i implies #[trigger] first.taken[3 + j] != path by {
            assert(before[3 + j] == first.taken[3 + j]);
        }
    }
    assert forall|i: int| n <= i < facts.len() implies {
        let name = (#[trigger] facts[i]).0;
        &&& !own.contains(member_id(name))
        &&& !is_system_field(name)
        &&& forall|j: int| 0 <= j < n ==> #[trigger] first.taken[3 + j] != member_id(name)
    } by {
        let id = member_id(facts[i].0);
        assert(!first.taken.contains(id));
        if own.contains(id) {
            let k = choose|k: int| 0 <= k < 3 && own[k] == id;
            assert(first.taken.take(3)[k] == id);
            assert(first.taken[k] == id);
        }
    }
}

// ── What a card shows of its document ────────────────────────────────────

/// What is shown of a text on a card: the whole of it up to 28 characters, else
/// its first 27 and an ellipsis.
pub open spec fn cut_for_card(text: Text) -> Text {
    if text.len() <= 28 {
        text
    } else {
        text.take(27).push('…')
    }
}

proof fn preferred_facts_are_true(doc: ValueView, fields: Seq<Text>, taken: Seq<Text>)
    ensures
        ({
            let out = preferred_facts(doc, fields, taken);
            &&& out.facts.len() <= fields.len()
            &&& out.taken.len() == taken.len() + out.facts.len()
            &&& forall|i: int| 0 <= i < taken.len() ==> #[trigger] out.taken[i] == taken[i]
            &&& forall|i: int|
                0 <= i < out.facts.len() ==> {
                    let path = out.taken[taken.len() + i];
                    &&& #[trigger] out.facts[i] == (
                        names(path).last(),
                        cut_for_card(text_at(doc, path)->0),
                    )
                    &&& fields.contains(path)
                    &&& text_at(doc, path) is Some
                }
        }),
    decreases fields.len(),
{
    let out = preferred_facts(doc, fields, taken);
    if fields.len() > 0 {
        let rest = fields.drop_last();
        let front = preferred_facts(doc, rest, taken);
        preferred_facts_are_true(doc, rest, taken);
        let path = fields.last();
        assert(fields[fields.len() - 1] == path);
        assert forall|i: int| 0 <= i < taken.len() implies #[trigger] out.taken[i] == taken[i] by {
            assert(front.taken[i] == taken[i]);
        }
        assert forall|i: int| 0 <= i < out.facts.len() implies {
            let path = out.taken[taken.len() + i];
            &&& #[trigger] out.facts[i] == (
                names(path).last(),
                cut_for_card(text_at(doc, path)->0),
            )
            &&& fields.contains(path)
            &&& text_at(doc, path) is Some
        } by {
            if i < front.facts.len() {
                assert(out.facts[i] == front.facts[i]);
                let own = front.taken[taken.len() + i];
                let k = choose|k: int| 0 <= k < rest.len() && rest[k] == own;
                assert(fields[k] == own);
            } else {
                reveal_strlit("…");
                let text = text_at(doc, path)->0;
                assert(shortened(text, 28) =~= cut_for_card(text));
            }
        }
    }
}

proof fn chosen_is_shown(doc: ValueView, fields: Seq<Text>, taken: Seq<Text>, k: int)
    requires
        0 <= k < fields.len(),
        !taken.contains(fields[k]),
        text_at(doc, fields[k]) is Some,
        k < 3 || preferred_facts(doc, fields, taken).facts.len() < 3,
    ensures
        preferred_facts(doc, fields, taken).facts.contains(
            (names(fields[k]).last(), cut_for_card(text_at(doc, fields[k])->0)),
        ),
    decreases fields.len(),
{
    let out = preferred_facts(doc, fields, taken);
    let rest = fields.drop_last();
    let front = preferred_facts(doc, rest, taken);
    let fact = (names(fields[k]).last(), cut_for_card(text_at(doc, fields[k])->0));
    preferred_facts_are_true(doc, rest, taken);
    if k < rest.len() {
        assert(rest[k] == fields[k]);
        chosen_is_shown(doc, rest, taken, k);
        let m = choose|m: int| 0 <= m < front.facts.len() && front.facts[m] == fact;
        assert(out.facts[m] == fact);
    } else {
        preferred_facts_are_true(doc, fields, taken);
        assert(front.facts.len() < 3);
        if front.taken.contains(fields[k]) {
            let m = choose|m: int| 0 <= m < front.taken.len() && front.taken[m] == fields[k];
            if m < taken.len() {
                assert(taken[m] == fields[k]);
            } else {
                assert(front.facts[m - taken.len()] == fact);
                assert(out.facts[m - taken.len()] == fact);
            }
        } else {
            assert(out.taken[taken.len() + out.facts.len() - 1] == fields[k]);
            assert(out.facts[out.facts.len() - 1] == fact);
        }
    }
}

proof fn filled_facts_are_true(
    facts: Seq<(Text, Text)>,
    members: Seq<(Text, ValueView)>,
    taken: Seq<Text>,
)
    ensures
        ({
            let out = filled_facts(facts, members, taken);
            &&& facts.len() <= out.len()
            &&& forall|i: int| 0 <= i < facts.len() ==> #[trigger] out[i] == facts[i]
            &&& forall|i: int|
                facts.len() <= i < out.len() ==> exists|m: int|
                    0 <= m < members.len() && (#[trigger] members[m]).0 == (#[trigger] out[i]).0
                        && text_of_scalar(members[m].1) == Some(out[i].1)
        }),
    decreases members.len(),
{
    let out = filled_facts(facts, members, taken);
    if members.len() > 0 {
        let rest = members.drop_last();
        let front = filled_facts(facts, rest, taken);
        filled_facts_are_true(facts, rest, taken);
        assert forall|i: int| facts.len() <= i < out.len() implies exists|m: int|
            0 <= m < members.len() && (#[trigger] members[m]).0 == (#[trigger] out[i]).0
                && text_of_scalar(members[m].1) == Some(out[i].1) by {
            if i < front.len() {
                assert(out[i] == front[i]);
                let m = choose|m: int|
                    0 <= m < rest.len() && (#[trigger] rest[m]).0 == front[i].0 && text_of_scalar(
                        rest[m].1,
                    ) == Some(front[i].1);
                assert(members[m] == rest[m]);
            } else {
                assert(members[members.len() - 1] == members.last());
            }
        }
    }
}

proof fn member_is_shown(
    facts: Seq<(Text, Text)>,
    members: Seq<(Text, ValueView)>,
    taken: Seq<Text>,
    m: int,
)
    requires
        0 <= m < members.len(),
        text_of_scalar(members[m].1) is Some,
        byte_length(text_of_scalar(members[m].1)->0) <= 28,
        !is_system_field(members[m].0),
        !taken.contains(member_id(members[m].0)),
        filled_facts(facts, members, taken).len() < 3,
    ensures
        filled_facts(facts, members, taken).contains(
            (members[m].0, text_of_scalar(members[m].1)->0),
        ),
    decreases members.len(),
{
    let out = filled_facts(facts, members, taken);
    let rest = members.drop_last();
    let front = filled_facts(facts, rest, taken);
    let fact = (members[m].0, text_of_scalar(members[m].1)->0);
    if m < rest.len() {
        assert(rest[m] == members[m]);
        member_is_shown(facts, rest, taken, m);
        let k = choose|k: int| 0 <= k < front.len() && front[k] == fact;
        assert(out[k] == fact);
    } else {
        assert(out[out.len() - 1] == fact);
    }
}

/// A card with room shows every short scalar of its document: where fewer than
/// three facts are shown, each member of the document whose text has at most 28
/// bytes is one of them, in full, unless the store put it there, or it is the
/// key, the time or the label, or it is a chosen field and shown as that. So a
/// document with such a member never has a blank card, whatever was chosen.
pub proof fn cards_with_room_show_every_scalar(
    members: Seq<(Text, ValueView)>,
    spec: TraceSpecView,
    key_field: Text,
    m: int,
)
    requires
        0 <= m < members.len(),
        text_of_scalar(members[m].1) is Some,
        byte_length(text_of_scalar(members[m].1)->0) <= 28,
        !is_system_field(members[m].0),
        ({
            let id = lowered(child_path(Seq::empty(), members[m].0));
            &&& id != lowered(key_field)
            &&& id != spec.time_field
            &&& id != spec.label_field
            &&& !(spec.fact_fields.contains(id) && text_at(ValueView::Object(members), id) is Some)
        }),
    ensures
        ({
            let facts = facts_of(ValueView::Object(members), spec, key_field);
            &&& facts.len() > 0
            &&& facts.len() >= 3 || facts.contains(
                (members[m].0, text_of_scalar(members[m].1)->0),
            )
        }),
{
    let doc = ValueView::Object(members);
    let id = lowered(child_path(Seq::empty(), members[m].0));
    let own = seq![lowered(key_field), spec.time_field, spec.label_field];
    let first = preferred_facts(doc, spec.fact_fields, own);
    let facts = facts_of(doc, spec, key_field);
    preferred_facts_are_true(doc, spec.fact_fields, own);
    if first.taken.contains(id) {
        let k = choose|k: int| 0 <= k < first.taken.len() && first.taken[k] == id;
        if k < 3 {
            assert(own[k] == id);
        } else {
            assert(first.facts[k - 3].0 == names(id).last());
        }
    }
    if facts.len() < 3 {
        member_is_shown(first.facts, members, first.taken, m);
    }
}

/// A card shows the chosen fields that its document has: one of the first three,
/// and any of them where fewer than three facts are shown, is there under its
/// own name with its own text, unless it is the key, the time or the label.
pub proof fn cards_show_what_was_chosen(
    doc: ValueView,
    spec: TraceSpecView,
    key_field: Text,
    k: int,
)
    requires
        0 <= k < spec.fact_fields.len(),
        text_at(doc, spec.fact_fields[k]) is Some,
        spec.fact_fields[k] != lowered(key_field),
        spec.fact_fields[k] != spec.time_field,
        spec.fact_fields[k] != spec.label_field,
        k < 3 || facts_of(doc, spec, key_field).len() < 3,
    ensures
        facts_of(doc, spec, key_field).contains(
            (
                names(spec.fact_fields[k]).last(),
                cut_for_card(text_at(doc, spec.fact_fields[k])->0),
            ),
        ),
{
    let own = seq![lowered(key_field), spec.time_field, spec.label_field];
    let first = preferred_facts(doc, spec.fact_fields, own);
    let facts = facts_of(doc, spec, key_field);
    let fact = (
        names(spec.fact_fields[k]).last(),
        cut_for_card(text_at(doc, spec.fact_fields[k])->0),
    );
    if let ValueView::Object(members) = doc {
        filled_facts_are_true(first.facts, members, first.taken);
    }
    if own.contains(spec.fact_fields[k]) {
        let x = choose|x: int| 0 <= x < 3 && own[x] == spec.fact_fields[k];
        assert(own[x] == own[0] || own[x] == own[1] || own[x] == own[2]);
    }
    chosen_is_shown(doc, spec.fact_fields, own, k);
    let x = choose|x: int| 0 <= x < first.facts.len() && first.facts[x] == fact;
    assert(facts[x] == fact);
}

/// A card says nothing that its document does not: each fact is the text of a
/// chosen field, under the field's last name, or of a member of the document,
/// under its own. There are never more than three.
pub proof fn cards_say_what_the_document_says(
    doc: ValueView,
    spec: TraceSpecView,
    key_field: Text,
    i: int,
)
    requires
        0 <= i < facts_of(doc, spec, key_field).len(),
    ensures
        facts_of(doc, spec, key_field).len() <= 3,
        ({
            let fact = facts_of(doc, spec, key_field)[i];
            ||| exists|k: int|
                0 <= k < spec.fact_fields.len() && text_at(
                    doc,
                    #[trigger] spec.fact_fields[k],
                ) is Some && fact == (
                    names(spec.fact_fields[k]).last(),
                    cut_for_card(text_at(doc, spec.fact_fields[k])->0),
                )
            ||| doc is Object && exists|m: int|
                0 <= m < doc->Object_0.len() && (#[trigger] doc->Object_0[m]).0 == fact.0
                    && text_of_scalar(doc->Object_0[m].1) == Some(fact.1)
        }),
{
    let own = seq![lowered(key_field), spec.time_field, spec.label_field];
    let first = preferred_facts(doc, spec.fact_fields, own);
    let facts = facts_of(doc, spec, key_field);
    facts_are_few_and_new(doc, spec, key_field);
    preferred_facts_are_true(doc, spec.fact_fields, own);
    if let ValueView::Object(members) = doc {
        filled_facts_are_true(first.facts, members, first.taken);
        if i >= first.facts.len() {
            let m = choose|m: int|
                0 <= m < members.len() && (#[trigger] members[m]).0 == facts[i].0
                    && text_of_scalar(members[m].1) == Some(facts[i].1);
            assert(doc->Object_0[m] == members[m]);
        }
    }
    if i < first.facts.len() {
        let path = first.taken[3 + i];
        assert(first.facts[i].0 == names(path).last());
        let k = choose|k: int| 0 <= k < spec.fact_fields.len() && spec.fact_fields[k] == path;
        assert(spec.fact_fields[k] == path);
    }
}

/// A card keeps its document whole, and says where it came from. It is called
/// by the text of the label field, the whole of it, or by its container without
/// the database. Its time is that of the time field, and it shows one exactly
/// when it has one; without a time field it has none.
pub proof fn cards_keep_the_document(
    doc: ValueView,
    spec: TraceSpecView,
    database: Text,
    container: Text,
    key_field: Text,
    id: Text,
)
    requires
        forall|i: int| 0 <= i < container.len() ==> #[trigger] container[i] != '/',
    ensures
        ({
            let path = database + "/"@ + container;
            let card = block_of(doc, spec, path, key_field, id);
            &&& card.doc == doc
            &&& card.container == path
            &&& card.id == id
            &&& card.facts == facts_of(doc, spec, key_field)
            &&& forall|t: Text| text_at(doc, spec.label_field) == Some(t) ==> card.label == t
            &&& text_at(doc, spec.label_field) is None ==> card.label == container
            &&& spec.time_field.len() == 0 ==> card.at is None
            &&& value_at(doc, spec.time_field) is None ==> card.at is None
            &&& forall|v: ValueView|
                value_at(doc, spec.time_field) == Some(v) ==> card.at == #[trigger] millis_of(v)
            &&& card.at is None ==> card.at_text.len() == 0
            &&& card.at is Some ==> card.at_text == time_text(card.at->0)
        }),
{
    let path = database + "/"@ + container;
    let none = Seq::<char>::empty();
    reveal_strlit("/");
    assert(path =~= database.push('/') + container);
    assert(database.push('/').drop_last() =~= database);
    pieces_go_on(database.push('/'), container, '/');
    pieces_is_never_empty(database, '/');
    assert(none + container =~= container);
}

/// A query asks for every property of the field's path, one below the other, and
/// for the value as a text; as a number too, where it could be one.
pub proof fn queries_ask_for_the_value(keys: Seq<Text>, key: Text, field: Text)
    ensures
        bracketed("c"@, keys.push(key)) == bracketed("c"@, keys) + "[\""@ + escaped(key, '"')
            + "\"]"@,
        bracketed("c"@, Seq::empty()) == "c"@,
        path_in_query(field) == bracketed("c"@, names(field)),
        query_text(field, false) == "SELECT * FROM c WHERE "@ + path_in_query(field) + " = @v"@,
        query_text(field, true) == query_text(field, false) + " OR "@ + path_in_query(field)
            + " = @n"@,
        null_query_text(field) == "SELECT * FROM c WHERE "@ + path_in_query(field) + " = null"@,
{
    reveal_strlit(" = @v OR ");
    reveal_strlit(" = @v");
    reveal_strlit(" OR ");
    assert(keys.push(key).drop_last() =~= keys);
    assert(" = @v OR "@ =~= " = @v"@ + " OR "@);
    assert(query_text(field, true) =~= query_text(field, false) + " OR "@ + path_in_query(field)
        + " = @n"@);
}

} // verus!
