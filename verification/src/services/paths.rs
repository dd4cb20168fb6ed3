//! Field paths.
//!
//! A field path is dotted (`properties.correlationId`) because that is what
//! reads well in a picker. Property names may themselves contain a dot, so the
//! separator is escaped on the way in and honoured on the way out: otherwise
//! `{"a.b": 1}` and `{"a": {"b": 1}}` produce the same path and one of them
//! gets queried as the other.

use crate::text::{
    ascii_lower, ascii_lowered, chars_of, escape, escaped, escaping_marks_only_what_is_special,
    is_ascii, joined, Text,
};
use vstd::prelude::*;

verus! {

/// The path of the property `key` below `prefix`.
pub open spec fn child_path(prefix: Text, key: Text) -> Text {
    if prefix.len() == 0 {
        escaped(key, '.')
    } else {
        prefix + seq!['.'] + escaped(key, '.')
    }
}

/// What is read off `path` once the names `done` are complete and `name` is
/// being read: a backslash makes the character behind it part of the name, a
/// dot ends the name.
pub open spec fn names_from(path: Text, done: Seq<Text>, name: Text) -> Seq<Text>
    decreases path.len(),
{
    if path.len() == 0 {
        done.push(name)
    } else if path[0] == '\\' {
        if path.len() == 1 {
            done.push(name.push('\\'))
        } else {
            names_from(path.skip(2), done, name.push(path[1]))
        }
    } else if path[0] == '.' {
        names_from(path.skip(1), done.push(name), Seq::empty())
    } else {
        names_from(path.skip(1), done, name.push(path[0]))
    }
}

/// The property names along `path`.
pub open spec fn names(path: Text) -> Seq<Text> {
    names_from(path, Seq::empty(), Seq::empty())
}

/// Whether `path` ends in a backslash with nothing behind it to escape.
pub open spec fn cut_short(path: Text) -> bool
    decreases path.len(),
{
    if path.len() == 0 {
        false
    } else if path[0] == '\\' {
        path.len() == 1 || cut_short(path.skip(2))
    } else {
        cut_short(path.skip(1))
    }
}

/// The path that leads through the properties `keys`, one below the other.
pub open spec fn path_through(keys: Seq<Text>) -> Text
    decreases keys.len(),
{
    if keys.len() == 0 {
        Seq::empty()
    } else {
        child_path(path_through(keys.drop_last()), keys.last())
    }
}

/// Appends `key` to `prefix`, escaping any separator inside the key.
pub fn join_path(prefix: &str, key: &str) -> (out: String)
    ensures
        out@ == child_path(prefix@, key@),
{
    let last = escape(key, '.');
    if prefix.is_empty() {
        return last;
    }
    let mut out = prefix.to_owned();
    out.push('.');
    out.append(last.as_str());
    assert(out@ =~= prefix@ + seq!['.'] + last@);
    out
}

/// Splits a dotted path back into its original property names.
pub fn split_path(path: &str) -> (out: Vec<String>)
    ensures
        out.deep_view() == names(path@),
        out@.len() > 0,
{
    let x = chars_of(path);
    let mut out: Vec<String> = Vec::new();
    let mut name = String::new();
    let mut i: usize = 0;
    assert(x@.skip(0) =~= x@);
    assert(out.deep_view() =~= Seq::<Text>::empty());
    while i < x.len()
        invariant
            x@ == path@,
            i <= x@.len(),
            names(path@) == names_from(x@.skip(i as int), out.deep_view(), name@),
        decreases x.len() - i,
    {
        let ghost rest = x@.skip(i as int);
        assert(rest[0] == x@[i as int]);
        assert(rest.skip(1) =~= x@.skip(i + 1));
        if x[i] == '\\' {
            if i + 1 < x.len() {
                assert(rest[1] == x@[i + 1]);
                assert(rest.skip(2) =~= x@.skip(i + 2));
                name.push(x[i + 1]);
                i = i + 2;
            } else {
                name.push('\\');
                assert(x@.skip(i + 1) =~= Seq::empty());
                i = i + 1;
            }
        } else if x[i] == '.' {
            let ghost before = out.deep_view();
            let ghost full = name@;
            out.push(name);
            assert(out.deep_view() =~= before.push(full));
            name = String::new();
            i = i + 1;
        } else {
            name.push(x[i]);
            i = i + 1;
        }
    }
    let ghost before = out.deep_view();
    let ghost full = name@;
    out.push(name);
    assert(out.deep_view() =~= before.push(full));
    out
}

/// The last segment of a path, with its escaping removed.
pub fn leaf(path: &str) -> (out: String)
    ensures
        out@ == names(path@).last(),
{
    let parts = split_path(path);
    let out = parts[parts.len() - 1].clone();
    assert(parts.deep_view().last() == parts@.last()@);
    out
}

proof fn names_from_escaped(key: Text, rest: Text, done: Seq<Text>, name: Text)
    ensures
        names_from(escaped(key, '.') + rest, done, name) == names_from(rest, done, name + key),
    decreases key.len(),
{
    if key.len() == 0 {
        assert(escaped(key, '.') + rest =~= rest);
        assert(name + key =~= name);
    } else {
        let front = key.drop_last();
        let c = key.last();
        assert(name + key =~= (name + front).push(c));
        if c == '\\' || c == '.' {
            let more = seq!['\\', c] + rest;
            assert(escaped(key, '.') + rest =~= escaped(front, '.') + more);
            names_from_escaped(front, more, done, name);
            assert(more.skip(2) =~= rest);
        } else {
            let more = seq![c] + rest;
            assert(escaped(key, '.') + rest =~= escaped(front, '.') + more);
            names_from_escaped(front, more, done, name);
            assert(more.skip(1) =~= rest);
        }
    }
}

proof fn cut_short_escaped(key: Text, rest: Text)
    ensures
        cut_short(escaped(key, '.') + rest) == cut_short(rest),
    decreases key.len(),
{
    if key.len() == 0 {
        assert(escaped(key, '.') + rest =~= rest);
    } else {
        let front = key.drop_last();
        let c = key.last();
        if c == '\\' || c == '.' {
            let more = seq!['\\', c] + rest;
            assert(escaped(key, '.') + rest =~= escaped(front, '.') + more);
            cut_short_escaped(front, more);
            assert(more.skip(2) =~= rest);
        } else {
            let more = seq![c] + rest;
            assert(escaped(key, '.') + rest =~= escaped(front, '.') + more);
            cut_short_escaped(front, more);
            assert(more.skip(1) =~= rest);
        }
    }
}

proof fn names_from_prefix(prefix: Text, rest: Text, done: Seq<Text>, name: Text)
    requires
        !cut_short(prefix),
    ensures
        names_from(prefix + seq!['.'] + rest, done, name) == names_from(
            rest,
            names_from(prefix, done, name),
            Seq::empty(),
        ),
        cut_short(prefix + seq!['.'] + rest) == cut_short(rest),
    decreases prefix.len(),
{
    let whole = prefix + seq!['.'] + rest;
    if prefix.len() == 0 {
        assert(whole.skip(1) =~= rest);
    } else if prefix[0] == '\\' {
        assert(whole.skip(2) =~= prefix.skip(2) + seq!['.'] + rest);
        names_from_prefix(prefix.skip(2), rest, done, name.push(prefix[1]));
    } else if prefix[0] == '.' {
        assert(whole.skip(1) =~= prefix.skip(1) + seq!['.'] + rest);
        names_from_prefix(prefix.skip(1), rest, done.push(name), Seq::empty());
    } else {
        assert(whole.skip(1) =~= prefix.skip(1) + seq!['.'] + rest);
        names_from_prefix(prefix.skip(1), rest, done, name.push(prefix[0]));
    }
}

/// Appending a property to a path appends exactly its name to the names that
/// the path is split into, whatever characters the name holds; the last name
/// of the longer path is that name.
pub proof fn split_undoes_join(prefix: Text, key: Text)
    requires
        !cut_short(prefix),
    ensures
        names(child_path(prefix, key)) == (if prefix.len() == 0 {
            seq![key]
        } else {
            names(prefix).push(key)
        }),
        names(child_path(prefix, key)).last() == key,
        !cut_short(child_path(prefix, key)),
{
    let none = Seq::<Text>::empty();
    let last = escaped(key, '.');
    assert(last + Seq::empty() =~= last);
    cut_short_escaped(key, Seq::empty());
    if prefix.len() == 0 {
        names_from_escaped(key, Seq::empty(), none, Seq::empty());
        assert(Seq::empty() + key =~= key);
        assert(none.push(key) =~= seq![key]);
    } else {
        names_from_prefix(prefix, last, none, Seq::empty());
        names_from_escaped(key, Seq::empty(), names(prefix), Seq::empty());
        assert(Seq::empty() + key =~= key);
    }
}

/// The path through nested properties splits back into their names: a dot or
/// a backslash inside a name survives. Only a path whose first name is empty
/// loses that name.
pub proof fn path_round_trips(keys: Seq<Text>)
    requires
        keys.len() > 0,
        keys[0].len() > 0 || keys.len() == 1,
    ensures
        names(path_through(keys)) == keys,
        !cut_short(path_through(keys)),
    decreases keys.len(),
{
    let front = keys.drop_last();
    if front.len() > 0 {
        path_round_trips(front);
        escaped_is_no_shorter(keys[0]);
        path_grows(front);
    }
    split_undoes_join(path_through(front), keys.last());
    assert(keys =~= front.push(keys.last()));
}

pub(crate) proof fn escaped_is_no_shorter(key: Text)
    ensures
        escaped(key, '.').len() >= key.len(),
    decreases key.len(),
{
    if key.len() > 0 {
        escaped_is_no_shorter(key.drop_last());
    }
}

pub(crate) proof fn path_grows(keys: Seq<Text>)
    requires
        keys.len() > 0,
        keys[0].len() > 0,
    ensures
        path_through(keys).len() > 0,
    decreases keys.len(),
{
    if keys.len() > 1 {
        path_grows(keys.drop_last());
    } else {
        escaped_is_no_shorter(keys[0]);
        assert(path_through(keys.drop_last()).len() == 0);
    }
}

/// Different nestings of properties never share a path, so no property is
/// looked up or queried as another.
pub proof fn paths_tell_properties_apart(a: Seq<Text>, b: Seq<Text>)
    requires
        a.len() > 0,
        b.len() > 0,
        a[0].len() > 0 || a.len() == 1,
        b[0].len() > 0 || b.len() == 1,
        path_through(a) == path_through(b),
    ensures
        a == b,
{
    path_round_trips(a);
    path_round_trips(b);
}

/// `list` with every text in lower case, for ASCII texts.
pub open spec fn all_ascii_lowered(list: Seq<Text>) -> Seq<Text> {
    list.map_values(|t: Text| ascii_lowered(t))
}

proof fn lowered_push(s: Text, c: char)
    ensures
        ascii_lowered(s.push(c)) == ascii_lowered(s).push(ascii_lower(c)),
        ascii_lower(c) == '\\' <==> c == '\\',
        ascii_lower(c) == '.' <==> c == '.',
{
    assert(ascii_lowered(s.push(c)) =~= ascii_lowered(s).push(ascii_lower(c)));
    if 'A' <= c <= 'Z' {
        assert('a' <= ascii_lower(c) <= 'z');
    }
}

proof fn names_from_lowered(path: Text, done: Seq<Text>, name: Text)
    ensures
        names_from(ascii_lowered(path), all_ascii_lowered(done), ascii_lowered(name))
            == all_ascii_lowered(names_from(path, done, name)),
    decreases path.len(),
{
    let lower = ascii_lowered(path);
    let low = all_ascii_lowered(done);
    if path.len() == 0 {
        assert(all_ascii_lowered(done.push(name)) =~= low.push(ascii_lowered(name)));
    } else {
        lowered_push(name, path[0]);
        assert(lower[0] == ascii_lower(path[0]));
        assert(lower.skip(1) =~= ascii_lowered(path.skip(1)));
        if path[0] == '\\' {
            if path.len() == 1 {
                let last = name.push('\\');
                assert(all_ascii_lowered(done.push(last)) =~= low.push(ascii_lowered(last)));
            } else {
                lowered_push(name, path[1]);
                assert(lower[1] == ascii_lower(path[1]));
                assert(lower.skip(2) =~= ascii_lowered(path.skip(2)));
                names_from_lowered(path.skip(2), done, name.push(path[1]));
            }
        } else if path[0] == '.' {
            names_from_lowered(path.skip(1), done.push(name), Seq::empty());
            assert(all_ascii_lowered(done.push(name)) =~= low.push(ascii_lowered(name)));
            assert(ascii_lowered(Seq::empty()) =~= Seq::<char>::empty());
        } else {
            names_from_lowered(path.skip(1), done, name.push(path[0]));
        }
    }
}

/// A path in lower case splits into the names in lower case.
pub proof fn names_of_lowered(path: Text)
    ensures
        names(ascii_lowered(path)) == all_ascii_lowered(names(path)),
{
    names_from_lowered(path, Seq::empty(), Seq::empty());
    assert(all_ascii_lowered(Seq::empty()) =~= Seq::<Text>::empty());
    assert(ascii_lowered(Seq::empty()) =~= Seq::<char>::empty());
}

proof fn escaped_is_ascii(key: Text)
    requires
        is_ascii(key),
    ensures
        is_ascii(escaped(key, '.')),
    decreases key.len(),
{
    if key.len() > 0 {
        let front = key.drop_last();
        assert forall|i: int| 0 <= i < front.len() implies #[trigger] front[i] <= '\u{7f}' by {
            assert(front[i] == key[i]);
        }
        escaped_is_ascii(front);
        let early = escaped(front, '.');
        let all = escaped(key, '.');
        assert(key[key.len() - 1] <= '\u{7f}');
        assert forall|i: int| 0 <= i < all.len() implies #[trigger] all[i] <= '\u{7f}' by {
            if i < early.len() {
                assert(all[i] == early[i]);
            }
        }
    }
}

/// A path through ASCII names is ASCII itself.
pub(crate) proof fn child_path_is_ascii(prefix: Text, key: Text)
    requires
        is_ascii(prefix),
        is_ascii(key),
    ensures
        is_ascii(child_path(prefix, key)),
{
    escaped_is_ascii(key);
    let last = escaped(key, '.');
    let all = child_path(prefix, key);
    assert forall|i: int| 0 <= i < all.len() implies #[trigger] all[i] <= '\u{7f}' by {
        if prefix.len() == 0 {
            assert(all[i] == last[i]);
        } else if i < prefix.len() {
            assert(all[i] == prefix[i]);
        } else if i > prefix.len() {
            assert(all[i] == last[i - prefix.len() - 1]);
        }
    }
}

/// A path through names that hold neither a dot nor a backslash is these names
/// with dots between them.
pub proof fn plain_names_are_joined_by_dots(keys: Seq<Text>)
    requires
        keys.len() > 0,
        keys[0].len() > 0,
        forall|i: int, k: int|
            0 <= i < keys.len() && 0 <= k < keys[i].len() ==> #[trigger] keys[i][k] != '.'
                && keys[i][k] != '\\',
    ensures
        path_through(keys) == joined(keys, "."@),
        path_through(keys).len() > 0,
    decreases keys.len(),
{
    reveal_strlit(".");
    let front = keys.drop_last();
    let last = keys.last();
    let none = Seq::<Text>::empty();
    assert(keys[keys.len() - 1] == last);
    assert forall|k: int| 0 <= k < last.len() implies #[trigger] last[k] != '\\' && last[k]
        != '.' by {
        assert(keys[keys.len() - 1][k] != '.');
    }
    escaping_marks_only_what_is_special(last, '.', 'a');
    if front.len() > 0 {
        assert forall|i: int, k: int|
            0 <= i < front.len() && 0 <= k < front[i].len() implies #[trigger] front[i][k] != '.'
            && front[i][k] != '\\' by {
            assert(front[i] == keys[i]);
            assert(keys[i][k] != '.');
        }
        plain_names_are_joined_by_dots(front);
        assert(seq!['.'] =~= "."@);
    } else {
        assert(front =~= none);
        assert(path_through(none) =~= Seq::<char>::empty());
        assert(keys[0] == last);
    }
}

} // verus!
