//! Reading single values out of a document, and telling failed steps by them.

use crate::services::paths::{
    leaf, names, path_grows, path_round_trips, path_through, split_path,
};
use crate::text::{
    ascii_lower, ascii_lowered, chars_of, concat, lowered, same, same_ignoring_case, text_of, to_lower, Text,
};
use crate::value::{Value, ValueView};
use vstd::prelude::*;

verus! {

/// The first of `members` whose lowercased name is `name`.
pub open spec fn member_named(members: Seq<(Text, ValueView)>, name: Text) -> Option<ValueView>
    decreases members.len(),
{
    if members.len() == 0 {
        None
    } else if lowered(members[0].0) == name {
        Some(members[0].1)
    } else {
        member_named(members.drop_first(), name)
    }
}

/// What stands in `doc` under the properties `path`, one below the other.
pub open spec fn value_under(doc: ValueView, path: Seq<Text>) -> Option<ValueView>
    decreases path.len(),
{
    if path.len() == 0 {
        Some(doc)
    } else {
        match doc {
            ValueView::Object(members) => match member_named(members, path[0]) {
                Some(v) => value_under(v, path.drop_first()),
                None => None,
            },
            _ => None,
        }
    }
}

/// What stands in `doc` at a lowercased path, whatever the case of the
/// document's own names; nothing at the empty path.
pub open spec fn value_at(doc: ValueView, lower_path: Text) -> Option<ValueView> {
    if lower_path.len() == 0 {
        None
    } else {
        value_under(doc, names(lower_path))
    }
}

fn find_member<'a>(members: &'a Vec<(String, Value)>, Ghost(all): Ghost<
    Seq<(Text, ValueView)>,
>, name: &str) -> (out: Option<&'a Value>)
    requires
        all.len() == members@.len(),
        forall|i: int|
            0 <= i < all.len() ==> #[trigger] all[i] == (members@[i].0@, members@[i].1@),
    ensures
        match out {
            Some(v) => member_named(all, name@) == Some(v@),
            None => member_named(all, name@) is None,
        },
{
    let mut i: usize = 0;
    assert(all.skip(0) =~= all);
    while i < members.len()
        invariant
            all.len() == members@.len(),
            forall|i: int|
                0 <= i < all.len() ==> #[trigger] all[i] == (members@[i].0@, members@[i].1@),
            i <= members@.len(),
            member_named(all, name@) == member_named(all.skip(i as int), name@),
        decreases members.len() - i,
    {
        let member = &members[i];
        assert(all.skip(i as int)[0] == all[i as int]);
        assert(all.skip(i as int).drop_first() =~= all.skip(i + 1));
        let lower = to_lower(member.0.as_str());
        if same(lower.as_str(), name) {
            return Some(&member.1);
        }
        i = i + 1;
    }
    None
}

/// Case-insensitive lookup down a dotted path.
pub fn lookup<'a>(doc: &'a Value, lower_path: &str) -> (out: Option<&'a Value>)
    ensures
        match out {
            Some(v) => value_at(doc@, lower_path@) == Some(v@),
            None => value_at(doc@, lower_path@) is None,
        },
{
    if lower_path.is_empty() {
        return None;
    }
    let parts = split_path(lower_path);
    let ghost path = parts.deep_view();
    let mut current = doc;
    let mut i: usize = 0;
    assert(path.skip(0) =~= path);
    while i < parts.len()
        invariant
            lower_path@.len() > 0,
            path == parts.deep_view(),
            path == names(lower_path@),
            i <= parts@.len(),
            value_under(doc@, path) == value_under(current@, path.skip(i as int)),
        decreases parts.len() - i,
    {
        assert(path.skip(i as int)[0] == parts@[i as int]@);
        assert(path.skip(i as int).drop_first() =~= path.skip(i + 1));
        let ghost here = current@;
        match current {
            Value::Object(members) => {
                match find_member(members, Ghost(here->Object_0), parts[i].as_str()) {
                    Some(v) => {
                        current = v;
                    },
                    None => {
                        return None;
                    },
                }
            },
            _ => {
                return None;
            },
        }
        i = i + 1;
    }
    assert(path.skip(i as int) =~= Seq::<Text>::empty());
    Some(current)
}

/// A value as text: a text that is not empty, a number, or a truth value.
pub open spec fn text_of_scalar(v: ValueView) -> Option<Text> {
    match v {
        ValueView::Text(s) => if s.len() > 0 {
            Some(s)
        } else {
            None
        },
        ValueView::Number(s, _) => Some(s),
        ValueView::Bool(b) => Some(
            if b {
                "true"@
            } else {
                "false"@
            },
        ),
        _ => None,
    }
}

/// The text at a path of `doc`.
pub open spec fn text_at(doc: ValueView, lower_path: Text) -> Option<Text> {
    match value_at(doc, lower_path) {
        Some(v) => text_of_scalar(v),
        None => None,
    }
}

/// A value as text: a text that is not empty, a number, or a truth value.
pub fn scalar_text(v: &Value) -> (out: Option<String>)
    ensures
        out.deep_view() == text_of_scalar(v@),
{
    match v {
        Value::Text(s) => if s.as_str().is_empty() {
            None
        } else {
            Some(s.clone())
        },
        Value::Number(n) => Some(n.text.clone()),
        Value::Bool(b) => Some(
            if *b {
                "true".to_owned()
            } else {
                "false".to_owned()
            },
        ),
        _ => None,
    }
}

/// The text at a path of `doc`.
pub fn lookup_text(doc: &Value, lower_path: &str) -> (out: Option<String>)
    ensures
        out.deep_view() == text_at(doc@, lower_path@),
{
    match lookup(doc, lower_path) {
        Some(v) => scalar_text(v),
        None => None,
    }
}

// ── Failed steps ─────────────────────────────────────────────────────────

/// A field value that means "this step failed".
///
/// What counts as an error is domain knowledge the data doesn't carry:
/// `sessionStatus: 3` means nothing without someone saying so. Rules are
/// therefore user-supplied and persisted per account, never guessed.
#[derive(Debug, PartialEq)]
pub struct ErrorRule {
    /// Lowercased dotted field path: what matching uses.
    pub field: String,
    /// The field's original spelling. Matching is case-insensitive, but fields
    /// are shown as the documents spell them everywhere else.
    pub display: String,
    /// Compared against the document's value as text, case-insensitively.
    pub value: String,
}

/// An error rule, as contracts speak of it.
pub struct RuleView {
    pub field: Text,
    pub display: Text,
    pub value: Text,
}

impl View for ErrorRule {
    type V = RuleView;

    open spec fn view(&self) -> RuleView {
        RuleView { field: self.field@, display: self.display@, value: self.value@ }
    }
}

impl DeepView for ErrorRule {
    type V = RuleView;

    open spec fn deep_view(&self) -> RuleView {
        self@
    }
}

impl Clone for ErrorRule {
    fn clone(&self) -> (out: Self)
        ensures
            out@ == self@,
    {
        ErrorRule {
            field: self.field.clone(),
            display: self.display.clone(),
            value: self.value.clone(),
        }
    }
}

/// What a rule is called: the field as it is spelled, or the last name of its
/// path, and the value.
pub open spec fn rule_label(rule: RuleView) -> Text {
    (if rule.display.len() == 0 {
        names(rule.field).last()
    } else {
        rule.display
    }) + " = "@ + rule.value
}

impl ErrorRule {
    /// `sessionStatus = 3`, for display.
    pub fn label(&self) -> (out: String)
        ensures
            out@ == rule_label(self@),
    {
        let name = if self.display.as_str().is_empty() {
            leaf(self.field.as_str())
        } else {
            self.display.clone()
        };
        let front = concat(name.as_str(), " = ");
        concat(front.as_str(), self.value.as_str())
    }
}

/// Whether `doc` has the value that `rule` names, whatever its case.
pub open spec fn breaks_rule(doc: ValueView, rule: RuleView) -> bool {
    match text_at(doc, rule.field) {
        Some(actual) => ascii_lowered(actual) == ascii_lowered(rule.value),
        None => false,
    }
}

/// Whether `doc` has a value that any of `rules` names.
pub open spec fn is_failure(doc: ValueView, rules: Seq<RuleView>) -> bool {
    exists|i: int| 0 <= i < rules.len() && breaks_rule(doc, #[trigger] rules[i])
}

/// Whether any rule matches. Rules are alternatives, so several values of the
/// same field (or several fields) can all mean failure.
pub fn is_error(doc: &Value, rules: &Vec<ErrorRule>) -> (r: bool)
    ensures
        r == is_failure(doc@, rules.deep_view()),
{
    let ghost all = rules.deep_view();
    let mut i: usize = 0;
    while i < rules.len()
        invariant
            all == rules.deep_view(),
            i <= rules@.len(),
            forall|j: int| 0 <= j < i ==> !breaks_rule(doc@, #[trigger] all[j]),
        decreases rules.len() - i,
    {
        let rule = &rules[i];
        assert(all[i as int] == rule@);
        if let Some(actual) = lookup_text(doc, rule.field.as_str()) {
            if same_ignoring_case(actual.as_str(), rule.value.as_str()) {
                assert(breaks_rule(doc@, all[i as int]));
                return true;
            }
        }
        i = i + 1;
    }
    false
}

// ── Shortening ───────────────────────────────────────────────────────────

/// `s`, if it has at most `max` characters; else its beginning and an ellipsis,
/// together `max` characters.
pub open spec fn shortened(s: Text, max: nat) -> Text {
    if s.len() <= max {
        s
    } else if max == 0 {
        "…"@
    } else {
        s.take(max - 1) + "…"@
    }
}

/// Shortens a text to at most `max` characters, the last of them an ellipsis.
pub fn truncate(s: &str, max: usize) -> (out: String)
    ensures
        out@ == shortened(s@, max as nat),
{
    let x = chars_of(s);
    if x.len() <= max {
        return s.to_owned();
    }
    let keep: usize = if max == 0 {
        0
    } else {
        max - 1
    };
    let kept = text_of(&x, 0, keep);
    assert(kept@ =~= s@.take(keep as int));
    assert(s@.take(0) + "…"@ =~= "…"@);
    concat(kept.as_str(), "…")
}

/// Rules are alternatives: a document fails by two lists of them together
/// exactly when it fails by one of the two, never fails by no rules at all, and
/// neither the order of the rules nor repeating one makes a difference.
pub proof fn rules_are_alternatives(doc: ValueView, a: Seq<RuleView>, b: Seq<RuleView>)
    ensures
        is_failure(doc, a + b) == (is_failure(doc, a) || is_failure(doc, b)),
        !is_failure(doc, Seq::empty()),
        a.to_set() == b.to_set() ==> is_failure(doc, a) == is_failure(doc, b),
{
    let both = a + b;
    if is_failure(doc, both) {
        let i = choose|i: int| 0 <= i < both.len() && breaks_rule(doc, #[trigger] both[i]);
        if i < a.len() {
            assert(breaks_rule(doc, a[i]));
        } else {
            assert(breaks_rule(doc, b[i - a.len()]));
        }
    }
    if is_failure(doc, a) {
        let i = choose|i: int| 0 <= i < a.len() && breaks_rule(doc, #[trigger] a[i]);
        assert(breaks_rule(doc, both[i]));
        if a.to_set() == b.to_set() {
            assert(a.to_set().contains(a[i]));
            let j = choose|j: int| 0 <= j < b.len() && b[j] == a[i];
            assert(breaks_rule(doc, b[j]));
        }
    }
    if is_failure(doc, b) {
        let i = choose|i: int| 0 <= i < b.len() && breaks_rule(doc, #[trigger] b[i]);
        assert(breaks_rule(doc, both[a.len() + i]));
        if a.to_set() == b.to_set() {
            assert(b.to_set().contains(b[i]));
            let j = choose|j: int| 0 <= j < a.len() && a[j] == b[i];
            assert(breaks_rule(doc, a[j]));
        }
    }
}

/// Looking up the path that leads through `keys` goes through exactly those
/// properties, whatever characters their names hold.
pub proof fn lookup_follows_path(doc: ValueView, keys: Seq<Text>)
    requires
        keys.len() > 0,
        keys[0].len() > 0,
    ensures
        value_at(doc, path_through(keys)) == value_under(doc, keys),
{
    path_round_trips(keys);
    path_grows(keys);
}

/// What is shortened fits: it is no longer than asked for, and what was short
/// enough is left alone.
pub proof fn shortened_fits(s: Text, max: nat)
    requires
        max > 0,
    ensures
        shortened(s, max).len() <= max,
        s.len() <= max ==> shortened(s, max) == s,
        s.len() > max ==> shortened(s, max).len() == max,
{
    reveal_strlit("…");
}

// ── What a rule and a lookup mean ────────────────────────────────────────

/// Whether two characters are the same, or one ASCII letter in its two cases.
pub open spec fn same_letter(c: char, d: char) -> bool {
    ||| c == d
    ||| 'A' <= c <= 'Z' && d as nat == c as nat + 32
    ||| 'A' <= d <= 'Z' && c as nat == d as nat + 32
}

/// Whether two texts are equally long and agree in every place, up to the case
/// of ASCII letters.
pub open spec fn same_letters(a: Text, b: Text) -> bool {
    a.len() == b.len() && forall|k: int| 0 <= k < a.len() ==> same_letter(#[trigger] a[k], b[k])
}

proof fn lowered_letters_agree(c: char, d: char)
    ensures
        ascii_lower(c) == ascii_lower(d) <==> same_letter(c, d),
{
}

proof fn lowered_texts_agree(a: Text, b: Text)
    ensures
        ascii_lowered(a) == ascii_lowered(b) <==> same_letters(a, b),
{
    let x = ascii_lowered(a);
    let y = ascii_lowered(b);
    if same_letters(a, b) {
        assert forall|k: int| 0 <= k < x.len() implies x[k] == y[k] by {
            lowered_letters_agree(a[k], b[k]);
            assert(same_letter(a[k], b[k]));
        }
        assert(x =~= y);
    }
    if x == y {
        assert(a.len() == x.len() && b.len() == y.len());
        assert forall|k: int| 0 <= k < a.len() implies same_letter(#[trigger] a[k], b[k]) by {
            lowered_letters_agree(a[k], b[k]);
            assert(x[k] == ascii_lower(a[k]) && y[k] == ascii_lower(b[k]));
        }
    }
}

/// A document has failed exactly when the whole text at the field of some rule
/// agrees with that rule's value, up to the case of ASCII letters. A value that
/// only begins with the rule's, ends with it or holds it is another value.
pub proof fn failing_is_having_the_value(doc: ValueView, rules: Seq<RuleView>)
    ensures
        is_failure(doc, rules) <==> exists|i: int|
            0 <= i < rules.len() && text_at(doc, (#[trigger] rules[i]).field) is Some
                && same_letters(text_at(doc, rules[i].field)->0, rules[i].value),
{
    assert forall|i: int| 0 <= i < rules.len() implies (breaks_rule(doc, #[trigger] rules[i])
        <==> text_at(doc, rules[i].field) is Some && same_letters(
        text_at(doc, rules[i].field)->0,
        rules[i].value,
    )) by {
        if let Some(actual) = text_at(doc, rules[i].field) {
            lowered_texts_agree(actual, rules[i].value);
        }
    }
}

/// Two rules on one field never both hold of a document unless their values
/// agree up to case.
pub proof fn one_field_has_one_value(doc: ValueView, a: RuleView, b: RuleView)
    requires
        a.field == b.field,
        is_failure(doc, seq![a]),
        is_failure(doc, seq![b]),
    ensures
        same_letters(a.value, b.value),
{
    failing_is_having_the_value(doc, seq![a]);
    failing_is_having_the_value(doc, seq![b]);
    let actual = text_at(doc, a.field)->0;
    assert(seq![a][0] == a && seq![b][0] == b);
    lowered_texts_agree(actual, a.value);
    lowered_texts_agree(actual, b.value);
    lowered_texts_agree(a.value, b.value);
}

/// What reads as a text: a text that is not empty as it is, a number as it is
/// written, and a truth value as its word. Nothing else does.
pub proof fn scalars_read_as_text(s: Text, n: Option<i64>, v: ValueView)
    ensures
        s.len() > 0 ==> text_of_scalar(ValueView::Text(s)) == Some(s),
        text_of_scalar(ValueView::Text(Seq::empty())) is None,
        text_of_scalar(ValueView::Number(s, n)) == Some(s),
        text_of_scalar(ValueView::Bool(true)) == Some("true"@),
        text_of_scalar(ValueView::Bool(false)) == Some("false"@),
        !(v is Text) && !(v is Number) && !(v is Bool) ==> text_of_scalar(v) is None,
{
}

/// Looking up one property finds the first member of that name, whatever case
/// it is written in, and goes on below it. There is nothing where no member is
/// called so, and nothing below what is no object.
pub proof fn lookup_finds_the_member(doc: ValueView, name: Text, below: Seq<Text>, m: int)
    ensures
        doc is Object && 0 <= m < doc->Object_0.len() && lowered(doc->Object_0[m].0) == name && (
        forall|k: int| 0 <= k < m ==> lowered((#[trigger] doc->Object_0[k]).0) != name) ==> {
            &&& value_under(doc, seq![name] + below) == value_under(doc->Object_0[m].1, below)
            &&& value_under(doc, seq![name]) == Some(doc->Object_0[m].1)
        },
        doc is Object && (forall|k: int|
            0 <= k < doc->Object_0.len() ==> lowered((#[trigger] doc->Object_0[k]).0) != name)
            ==> value_under(doc, seq![name] + below) is None,
        !(doc is Object) ==> value_under(doc, seq![name] + below) is None,
{
    let path = seq![name] + below;
    let none = Seq::<Text>::empty();
    assert(path[0] == name);
    assert(path.drop_first() =~= below);
    assert(seq![name].drop_first() =~= none);
    if let ValueView::Object(members) = doc {
        if 0 <= m < members.len() && lowered(members[m].0) == name && (forall|k: int|
            0 <= k < m ==> lowered((#[trigger] doc->Object_0[k]).0) != name) {
            assert forall|k: int| 0 <= k < m implies lowered((#[trigger] members[k]).0)
                != name by {
                assert(doc->Object_0[k] == members[k]);
            }
            member_at(members, name, m);
            assert(value_under(members[m].1, none) == Some(members[m].1));
            assert(seq![name][0] == name);
        }
        if forall|k: int|
            0 <= k < doc->Object_0.len() ==> lowered((#[trigger] doc->Object_0[k]).0) != name {
            assert forall|k: int| 0 <= k < members.len() implies lowered((#[trigger] members[k]).0)
                != name by {
                assert(doc->Object_0[k] == members[k]);
            }
            no_member(members, name);
        }
    }
}

proof fn member_at(members: Seq<(Text, ValueView)>, name: Text, m: int)
    requires
        0 <= m < members.len(),
        lowered(members[m].0) == name,
        forall|k: int| 0 <= k < m ==> lowered((#[trigger] members[k]).0) != name,
    ensures
        member_named(members, name) == Some(members[m].1),
    decreases members.len(),
{
    if m > 0 {
        let rest = members.drop_first();
        assert(lowered(members[0].0) != name);
        assert forall|k: int| 0 <= k < m - 1 implies lowered((#[trigger] rest[k]).0) != name by {
            assert(rest[k] == members[k + 1]);
        }
        member_at(rest, name, m - 1);
    }
}

proof fn no_member(members: Seq<(Text, ValueView)>, name: Text)
    requires
        forall|k: int| 0 <= k < members.len() ==> lowered((#[trigger] members[k]).0) != name,
    ensures
        member_named(members, name) is None,
    decreases members.len(),
{
    if members.len() > 0 {
        let rest = members.drop_first();
        assert(lowered(members[0].0) != name);
        assert forall|k: int| 0 <= k < rest.len() implies lowered((#[trigger] rest[k]).0)
            != name by {
            assert(rest[k] == members[k + 1]);
        }
        no_member(rest, name);
    }
}

/// The text at a path is what the value there reads as; the empty path leads
/// nowhere.
pub proof fn text_is_that_of_the_value(doc: ValueView, keys: Seq<Text>)
    requires
        keys.len() > 0,
        keys[0].len() > 0,
    ensures
        text_at(doc, Seq::empty()) is None,
        value_under(doc, keys) is None ==> text_at(doc, path_through(keys)) is None,
        forall|v: ValueView|
            value_under(doc, keys) == Some(v) ==> text_at(doc, path_through(keys))
                == #[trigger] text_of_scalar(v),
{
    lookup_follows_path(doc, keys);
}

/// What is too long is cut: its first characters stay, an ellipsis takes the
/// place of the last that fits.
pub proof fn shortening_keeps_the_beginning(s: Text, max: nat)
    requires
        0 < max < s.len(),
    ensures
        shortened(s, max) == s.take(max - 1).push('…'),
{
    reveal_strlit("…");
    assert(shortened(s, max) =~= s.take(max - 1).push('…'));
}

/// A rule is called by its field, as the documents spell it, and its value.
pub proof fn rules_are_called_by_their_field(rule: RuleView)
    ensures
        rule.display.len() > 0 ==> rule_label(rule) == rule.display + " = "@ + rule.value,
        rule.display.len() == 0 ==> rule_label(rule) == names(rule.field).last() + " = "@
            + rule.value,
{
}

} // verus!
