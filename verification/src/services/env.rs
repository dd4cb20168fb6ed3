//! Making the application's search path look like a terminal's.
//!
//! An application launched from a desktop does not inherit the shell
//! environment. It gets roughly `/usr/bin:/bin:/usr/sbin:/sbin`, which is why
//! `az` is not found there and works perfectly from a terminal. So at startup
//! the login shell is asked what it thinks the path should be, and that is
//! adopted, falling back to the usual locations when the shell gives none.
//!
//! `merge_paths` reads and writes a path as Unix does: directories separated by
//! `:`. For a system that does so differently, `tidy` and `keep_first` merge
//! directories that have been taken apart already.

use crate::text::{
    chars_of, contains, join, joined, occurs, occurs_at, pieces, pieces_undo_joined, same,
    split, trim, trimmed, trimmed_adds_nothing, trimmed_again, one_piece, pieces_add_up,
    pieces_is_never_empty, Text,
};
use vstd::prelude::*;

verus! {

/// Directories worth having even if the environment tells us nothing.
pub const FALLBACKS: [&'static str; 7] = [
    "/opt/homebrew/bin",
    "/opt/homebrew/sbin",
    "/usr/local/bin",
    "/usr/bin",
    "/bin",
    "/usr/sbin",
    "/sbin",
];

/// The directories of `FALLBACKS`, and behind them `more`.
pub open spec fn extras_of(more: Option<Text>) -> Seq<Text> {
    let all = Seq::new(7, |i: int| FALLBACKS@[i]@);
    match more {
        Some(dir) => all.push(dir),
        None => all,
    }
}

/// The directories to fall back on, with one more where there is one.
pub fn fallback_dirs(more: Option<&str>) -> (out: Vec<String>)
    ensures
        out.deep_view() == extras_of(
            match more {
                Some(dir) => Some(dir@),
                None => None,
            },
        ),
{
    let ghost all = Seq::new(7, |i: int| FALLBACKS@[i]@);
    let mut out: Vec<String> = Vec::new();
    let mut i: usize = 0;
    while i < 7
        invariant
            all == Seq::new(7, |i: int| FALLBACKS@[i]@),
            i <= 7,
            out@.len() == i,
            forall|j: int| 0 <= j < i ==> (#[trigger] out@[j])@ == all[j],
        decreases 7 - i,
    {
        out.push(FALLBACKS[i].to_owned());
        i = i + 1;
    }
    assert(out.deep_view() =~= all);
    if let Some(dir) = more {
        out.push(dir.to_owned());
        assert(out.deep_view() =~= all.push(dir@));
    }
    out
}

/// The path that a login shell printed, if it printed one and succeeded.
pub fn shell_answer(succeeded: bool, stdout: &str) -> (out: Option<String>)
    ensures
        out.deep_view() == (if succeeded && trimmed(stdout@).len() > 0 {
            Some(trimmed(stdout@))
        } else {
            None
        }),
{
    if !succeeded {
        return None;
    }
    let text = trim(stdout);
    if text.as_str().is_empty() {
        None
    } else {
        Some(text)
    }
}

// ── When two directories are the same ────────────────────────────────────

/// What a directory's name says: whether it starts at the root, and the steps
/// down from there.
pub struct Steps {
    pub rooted: bool,
    pub steps: Seq<Text>,
}

/// The steps among `parts`, which are what stands between slashes: an empty
/// part is none, nor is a dot, unless it is the first.
pub open spec fn steps_among(parts: Seq<Text>) -> Seq<Text>
    decreases parts.len(),
{
    if parts.len() == 0 {
        Seq::empty()
    } else {
        let front = steps_among(parts.drop_last());
        let last = parts.last();
        if last.len() == 0 || (last == "."@ && parts.len() > 1) {
            front
        } else {
            front.push(last)
        }
    }
}

/// What a directory's name says.
pub open spec fn steps_of(dir: Text) -> Steps {
    Steps {
        rooted: dir.len() > 0 && dir[0] == '/',
        steps: steps_among(pieces(dir, '/')),
    }
}

fn find_steps(dir: &str) -> (out: Vec<String>)
    ensures
        out.deep_view() == steps_of(dir@).steps,
{
    let parts = split(dir, '/');
    let ghost all = parts.deep_view();
    let mut out: Vec<String> = Vec::new();
    let mut i: usize = 0;
    assert(out.deep_view() =~= Seq::<Text>::empty());
    while i < parts.len()
        invariant
            all == parts.deep_view(),
            i <= parts@.len(),
            out.deep_view() == steps_among(all.take(i as int)),
        decreases parts.len() - i,
    {
        let part = &parts[i];
        assert(all.take(i + 1).drop_last() =~= all.take(i as int));
        assert(all.take(i + 1).last() == part@);
        if !(part.as_str().is_empty() || (same(part.as_str(), ".") && i > 0)) {
            let ghost before = out.deep_view();
            out.push(part.clone());
            assert(out.deep_view() =~= before.push(part@));
        }
        i = i + 1;
    }
    assert(all.take(i as int) =~= all);
    out
}

fn is_rooted(dir: &str) -> (r: bool)
    ensures
        r == steps_of(dir@).rooted,
{
    let x = chars_of(dir);
    x.len() > 0 && x[0] == '/'
}

fn same_texts(a: &Vec<String>, b: &Vec<String>) -> (r: bool)
    ensures
        r == (a.deep_view() == b.deep_view()),
{
    let ghost x = a.deep_view();
    let ghost y = b.deep_view();
    if a.len() != b.len() {
        assert(x.len() != y.len());
        return false;
    }
    let mut i: usize = 0;
    while i < a.len()
        invariant
            x == a.deep_view(),
            y == b.deep_view(),
            a@.len() == b@.len(),
            i <= a@.len(),
            forall|j: int| 0 <= j < i ==> x[j] == y[j],
        decreases a.len() - i,
    {
        assert(x[i as int] == a@[i as int]@ && y[i as int] == b@[i as int]@);
        if !same(a[i].as_str(), b[i].as_str()) {
            return false;
        }
        i = i + 1;
    }
    assert(x =~= y);
    true
}

fn same_dir(a: &str, b: &str) -> (r: bool)
    ensures
        r == (steps_of(a@) == steps_of(b@)),
{
    let x = find_steps(a);
    let y = find_steps(b);
    is_rooted(a) == is_rooted(b) && same_texts(&x, &y)
}

// ── Merging ──────────────────────────────────────────────────────────────

/// Whether one of `list` is the directory `dir`.
pub open spec fn has_dir(list: Seq<Text>, dir: Text) -> bool {
    exists|i: int| 0 <= i < list.len() && steps_of(#[trigger] list[i]) == steps_of(dir)
}

/// The directories of `list`, each where it first occurs, without white space
/// around them; blank entries, which a ragged path is full of and which resolve
/// to the current directory rather than to nothing, are dropped.
pub open spec fn first_dirs(list: Seq<Text>) -> Seq<Text>
    decreases list.len(),
{
    if list.len() == 0 {
        Seq::empty()
    } else {
        let front = first_dirs(list.drop_last());
        let dir = trimmed(list.last());
        if dir.len() == 0 || has_dir(front, dir) {
            front
        } else {
            front.push(dir)
        }
    }
}

/// All directories there are, in the order in which they are to be searched:
/// those of the login shell (it is the informed answer), then what we already
/// had, then the fallbacks.
pub open spec fn candidates(current: Text, login: Option<Text>, extras: Seq<Text>) -> Seq<Text> {
    pieces(
        match login {
            Some(path) => path,
            None => Seq::empty(),
        },
        ':',
    ) + pieces(current, ':') + extras
}

/// Whether no directory of `list` holds the separator, so that they can be
/// written as one path.
pub open spec fn can_join(list: Seq<Text>) -> bool {
    forall|i: int| 0 <= i < list.len() ==> !occurs(#[trigger] list[i], ":"@)
}

/// The merged path. Where a directory holds the separator itself, the path stays
/// as it was: leaving it untouched beats replacing it with a mangled one.
pub open spec fn merged_path(current: Text, login: Option<Text>, extras: Seq<Text>) -> Text {
    let dirs = first_dirs(candidates(current, login, extras));
    if can_join(dirs) {
        joined(dirs, ":"@)
    } else {
        current
    }
}

fn holds_dir(list: &Vec<String>, dir: &str) -> (r: bool)
    ensures
        r == has_dir(list.deep_view(), dir@),
{
    let ghost all = list.deep_view();
    let mut i: usize = 0;
    while i < list.len()
        invariant
            all == list.deep_view(),
            i <= list@.len(),
            forall|j: int| 0 <= j < i ==> steps_of(#[trigger] all[j]) != steps_of(dir@),
        decreases list.len() - i,
    {
        assert(all[i as int] == list@[i as int]@);
        if same_dir(list[i].as_str(), dir) {
            assert(steps_of(all[i as int]) == steps_of(dir@));
            return true;
        }
        i = i + 1;
    }
    false
}

fn add_dirs(out: &mut Vec<String>, list: &Vec<String>, Ghost(done): Ghost<Seq<Text>>)
    requires
        old(out).deep_view() == first_dirs(done),
    ensures
        final(out).deep_view() == first_dirs(done + list.deep_view()),
{
    let ghost all = list.deep_view();
    let mut i: usize = 0;
    assert(done + all.take(0) =~= done);
    while i < list.len()
        invariant
            all == list.deep_view(),
            i <= list@.len(),
            out.deep_view() == first_dirs(done + all.take(i as int)),
        decreases list.len() - i,
    {
        let ghost upto = done + all.take(i + 1);
        assert(upto.drop_last() =~= done + all.take(i as int));
        assert(upto.last() == list@[i as int]@);
        let dir = trim(list[i].as_str());
        if !dir.as_str().is_empty() && !holds_dir(out, dir.as_str()) {
            let ghost before = out.deep_view();
            let ghost view = dir@;
            out.push(dir);
            assert(out.deep_view() =~= before.push(view));
        }
        i = i + 1;
    }
    assert(all.take(i as int) =~= all);
}

/// Login shell first, then what we already had, then the fallbacks. Order is
/// preserved and duplicates are dropped, so the first place a tool is found
/// stays the one that wins.
///
/// `extras` is a list of single directories, never a whole path.
pub fn merge_paths(current: &str, login: Option<&str>, extras: &Vec<String>) -> (out: String)
    ensures
        out@ == merged_path(
            current@,
            match login {
                Some(path) => Some(path@),
                None => None,
            },
            extras.deep_view(),
        ),
{
    let first: &str = match login {
        Some(path) => path,
        None => "",
    };
    proof {
        reveal_strlit("");
        assert(""@ =~= Seq::<char>::empty());
    }
    let mut dirs: Vec<String> = Vec::new();
    let ghost none = Seq::<Text>::empty();
    assert(dirs.deep_view() =~= first_dirs(none));
    let from_login = split(first, ':');
    add_dirs(&mut dirs, &from_login, Ghost(none));
    assert(none + pieces(first@, ':') =~= pieces(first@, ':'));
    let from_current = split(current, ':');
    add_dirs(&mut dirs, &from_current, Ghost(pieces(first@, ':')));
    add_dirs(&mut dirs, extras, Ghost(pieces(first@, ':') + pieces(current@, ':')));
    let ghost all = dirs.deep_view();
    let mut i: usize = 0;
    while i < dirs.len()
        invariant
            all == dirs.deep_view(),
            all == first_dirs(
                candidates(
                    current@,
                    match login {
                        Some(path) => Some(path@),
                        None => None,
                    },
                    extras.deep_view(),
                ),
            ),
            i <= dirs@.len(),
            forall|j: int| 0 <= j < i ==> !occurs(#[trigger] all[j], ":"@),
        decreases dirs.len() - i,
    {
        assert(all[i as int] == dirs@[i as int]@);
        if contains(dirs[i].as_str(), ":") {
            assert(!can_join(all));
            return current.to_owned();
        }
        i = i + 1;
    }
    assert(can_join(all));
    join(&dirs, ":")
}

// ── Merging what has been taken apart ────────────────────────────────────

/// The directories of `list` without white space around them, and without the
/// blank entries.
pub open spec fn tidied(list: Seq<Text>) -> Seq<Text>
    decreases list.len(),
{
    if list.len() == 0 {
        Seq::empty()
    } else {
        let front = tidied(list.drop_last());
        let dir = trimmed(list.last());
        if dir.len() == 0 {
            front
        } else {
            front.push(dir)
        }
    }
}

/// The directories of `list` without white space around them. Blank entries,
/// which a ragged path is full of and which resolve to the current directory
/// rather than to nothing, are dropped.
pub fn tidy(list: &Vec<String>) -> (out: Vec<String>)
    ensures
        out.deep_view() == tidied(list.deep_view()),
{
    let ghost all = list.deep_view();
    let mut out: Vec<String> = Vec::new();
    let mut i: usize = 0;
    assert(out.deep_view() =~= Seq::<Text>::empty());
    while i < list.len()
        invariant
            all == list.deep_view(),
            i <= list@.len(),
            out.deep_view() == tidied(all.take(i as int)),
        decreases list.len() - i,
    {
        assert(all.take(i + 1).drop_last() =~= all.take(i as int));
        assert(all.take(i + 1).last() == list@[i as int]@);
        let dir = trim(list[i].as_str());
        if !dir.as_str().is_empty() {
            let ghost before = out.deep_view();
            let ghost view = dir@;
            out.push(dir);
            assert(out.deep_view() =~= before.push(view));
        }
        i = i + 1;
    }
    assert(all.take(i as int) =~= all);
    out
}

/// Those of `dirs` that are not the same as an earlier one. Two are the same
/// when they have the same parts, of which `parts` holds those of each.
pub open spec fn kept_first(dirs: Seq<Text>, parts: Seq<Seq<Text>>) -> Seq<Text>
    decreases dirs.len(),
{
    if dirs.len() == 0 {
        Seq::empty()
    } else {
        let front = kept_first(dirs.drop_last(), parts.drop_last());
        if parts.drop_last().contains(parts.last()) {
            front
        } else {
            front.push(dirs.last())
        }
    }
}

/// Drops each of `dirs` that is the same as an earlier one, so the first place a
/// tool is found stays the one that wins. `parts` holds the parts of each of
/// them, as the system reads it: that is what tells whether two are the same.
pub fn keep_first(dirs: &Vec<String>, parts: &Vec<Vec<String>>) -> (out: Vec<String>)
    requires
        dirs@.len() == parts@.len(),
    ensures
        out.deep_view() == kept_first(dirs.deep_view(), parts.deep_view()),
{
    let ghost all = dirs.deep_view();
    let ghost keys = parts.deep_view();
    let mut out: Vec<String> = Vec::new();
    let mut i: usize = 0;
    assert(out.deep_view() =~= Seq::<Text>::empty());
    while i < dirs.len()
        invariant
            dirs@.len() == parts@.len(),
            all == dirs.deep_view(),
            keys == parts.deep_view(),
            i <= dirs@.len(),
            out.deep_view() == kept_first(all.take(i as int), keys.take(i as int)),
        decreases dirs.len() - i,
    {
        let ghost early = keys.take(i as int);
        let ghost key = keys[i as int];
        assert(all.take(i + 1).drop_last() =~= all.take(i as int));
        assert(all.take(i + 1).last() == dirs@[i as int]@);
        assert(keys.take(i + 1).drop_last() =~= early);
        assert(keys.take(i + 1).last() == key);
        assert(key == parts@[i as int].deep_view());
        let mut seen = false;
        let mut k: usize = 0;
        while k < i
            invariant
                i < parts@.len(),
                keys == parts.deep_view(),
                key == parts@[i as int].deep_view(),
                early == keys.take(i as int),
                k <= i,
                seen == early.take(k as int).contains(key),
            decreases i - k,
        {
            assert(keys[k as int] == parts@[k as int].deep_view());
            let equal = same_texts(&parts[k], &parts[i]);
            proof {
                let upto = early.take(k + 1);
                assert(upto =~= early.take(k as int).push(keys[k as int]));
                if early.take(k as int).contains(key) {
                    let m = choose|m: int| 0 <= m < k && early.take(k as int)[m] == key;
                    assert(upto[m] == key);
                }
                if equal {
                    assert(upto[k as int] == key);
                }
                if upto.contains(key) && !equal {
                    let m = choose|m: int| 0 <= m < upto.len() && upto[m] == key;
                    assert(early.take(k as int)[m] == key);
                }
            }
            seen = seen || equal;
            k = k + 1;
        }
        assert(early.take(k as int) =~= early);
        if !seen {
            let ghost before = out.deep_view();
            out.push(dirs[i].clone());
            assert(out.deep_view() =~= before.push(all[i as int]));
        }
        i = i + 1;
    }
    assert(all.take(i as int) =~= all);
    assert(keys.take(i as int) =~= keys);
    out
}

// ── What holds of every path ─────────────────────────────────────────────

/// Which directories stay does not depend on how a path was taken apart: where
/// `parts` tells directories apart as Unix does, tidying and keeping the first
/// of each gives the directories of a merged path.
pub proof fn both_ways_keep_the_same(list: Seq<Text>, parts: Seq<Seq<Text>>)
    requires
        parts.len() == tidied(list).len(),
        forall|i: int, j: int|
            0 <= i < parts.len() && 0 <= j < parts.len() ==> ((#[trigger] parts[i])
                == #[trigger] parts[j] <==> steps_of(tidied(list)[i]) == steps_of(tidied(list)[j])),
    ensures
        kept_first(tidied(list), parts) == first_dirs(list),
    decreases list.len(),
{
    let all = tidied(list);
    if list.len() > 0 {
        let rest = list.drop_last();
        let front = tidied(rest);
        let dir = trimmed(list.last());
        if dir.len() == 0 {
            both_ways_keep_the_same(rest, parts);
        } else {
            let early = parts.drop_last();
            assert(all.drop_last() =~= front);
            assert forall|i: int, j: int|
                0 <= i < early.len() && 0 <= j < early.len() implies ((#[trigger] early[i])
                == #[trigger] early[j] <==> steps_of(front[i]) == steps_of(front[j])) by {
                assert(early[i] == parts[i] && early[j] == parts[j]);
                assert(front[i] == all[i] && front[j] == all[j]);
            }
            both_ways_keep_the_same(rest, early);
            let last = parts.len() - 1;
            assert(all[last] == dir);
            if early.contains(parts.last()) {
                let k = choose|k: int| 0 <= k < early.len() && early[k] == parts.last();
                assert(parts[k] == parts[last]);
                assert(front[k] == all[k]);
                tidied_are_found(rest, k);
            }
            if has_dir(first_dirs(rest), dir) {
                let i = choose|i: int|
                    0 <= i < first_dirs(rest).len() && steps_of(#[trigger] first_dirs(rest)[i])
                        == steps_of(dir);
                found_are_tidied(rest, i);
                let k = choose|k: int| 0 <= k < front.len() && front[k] == first_dirs(rest)[i];
                assert(front[k] == all[k]);
                assert(parts[k] == parts[last]);
                assert(early[k] == parts.last());
            }
        }
    }
}

proof fn tidied_are_found(list: Seq<Text>, k: int)
    requires
        0 <= k < tidied(list).len(),
    ensures
        has_dir(first_dirs(list), tidied(list)[k]),
    decreases list.len(),
{
    let front = tidied(list.drop_last());
    if list.len() > 0 {
        if k < front.len() {
            tidied_are_found(list.drop_last(), k);
            let early = first_dirs(list.drop_last());
            let i = choose|i: int|
                0 <= i < early.len() && steps_of(#[trigger] early[i]) == steps_of(front[k]);
            assert(first_dirs(list)[i] == early[i]);
        } else {
            directories_are_kept(list, list.len() - 1);
        }
    }
}

proof fn found_are_tidied(list: Seq<Text>, i: int)
    requires
        0 <= i < first_dirs(list).len(),
    ensures
        tidied(list).contains(first_dirs(list)[i]),
    decreases list.len(),
{
    let early = first_dirs(list.drop_last());
    let front = tidied(list.drop_last());
    if list.len() > 0 {
        if i < early.len() {
            found_are_tidied(list.drop_last(), i);
            let k = choose|k: int| 0 <= k < front.len() && front[k] == early[i];
            assert(tidied(list)[k] == early[i]);
        } else {
            assert(tidied(list)[front.len() as int] == first_dirs(list)[i]);
        }
    }
}

/// No directory appears twice in a merged path, and none is blank.
pub proof fn directories_appear_once(list: Seq<Text>)
    ensures
        forall|i: int, j: int|
            0 <= i < j < first_dirs(list).len() ==> steps_of(#[trigger] first_dirs(list)[i])
                != steps_of(#[trigger] first_dirs(list)[j]),
        forall|i: int|
            0 <= i < first_dirs(list).len() ==> (#[trigger] first_dirs(list)[i]).len() > 0,
    decreases list.len(),
{
    let out = first_dirs(list);
    if list.len() > 0 {
        let front = first_dirs(list.drop_last());
        directories_appear_once(list.drop_last());
        assert forall|i: int, j: int| 0 <= i < j < out.len() implies steps_of(#[trigger] out[i])
            != steps_of(#[trigger] out[j]) by {
            assert(out[i] == front[i]);
            if j < front.len() {
                assert(out[j] == front[j]);
            }
        }
        assert forall|i: int| 0 <= i < out.len() implies (#[trigger] out[i]).len() > 0 by {
            if i < front.len() {
                assert(out[i] == front[i]);
            }
        }
    }
}

/// No directory is lost in merging: whatever is not blank is found in the
/// result, under the same or an equivalent name.
pub proof fn directories_are_kept(list: Seq<Text>, k: int)
    requires
        0 <= k < list.len(),
        trimmed(list[k]).len() > 0,
    ensures
        has_dir(first_dirs(list), trimmed(list[k])),
    decreases list.len(),
{
    let out = first_dirs(list);
    let front = first_dirs(list.drop_last());
    let dir = trimmed(list[k]);
    if k < list.len() - 1 {
        directories_are_kept(list.drop_last(), k);
        let i = choose|i: int| 0 <= i < front.len() && steps_of(#[trigger] front[i]) == steps_of(dir);
        assert(out[i] == front[i]);
    } else if !has_dir(front, dir) {
        assert(out[out.len() - 1] == dir);
    } else {
        assert(out == front);
    }
}

/// What comes first stays first: the directories of the front part of a list
/// come out as they would on their own, and whatever the rest adds stands
/// behind them. So the login shell is believed before anything else.
pub proof fn earlier_directories_win(a: Seq<Text>, b: Seq<Text>)
    ensures
        first_dirs(a).len() <= first_dirs(a + b).len(),
        first_dirs(a + b).take(first_dirs(a).len() as int) == first_dirs(a),
    decreases b.len(),
{
    let n = first_dirs(a).len() as int;
    if b.len() == 0 {
        assert(a + b =~= a);
        assert(first_dirs(a).take(n) =~= first_dirs(a));
    } else {
        earlier_directories_win(a, b.drop_last());
        assert((a + b).drop_last() =~= a + b.drop_last());
        assert(first_dirs(a + b).take(n) =~= first_dirs(a + b.drop_last()).take(n));
    }
}

/// A merged path reads back as the directories it was made of, each of them
/// whole.
pub proof fn merged_path_reads_back(current: Text, login: Option<Text>, extras: Seq<Text>)
    requires
        first_dirs(candidates(current, login, extras)).len() > 0,
        can_join(first_dirs(candidates(current, login, extras))),
    ensures
        pieces(merged_path(current, login, extras), ':') == first_dirs(
            candidates(current, login, extras),
        ),
{
    let dirs = first_dirs(candidates(current, login, extras));
    reveal_strlit(":");
    assert(":"@ =~= seq![':']);
    assert forall|i: int, k: int| 0 <= i < dirs.len() && 0 <= k < dirs[i].len() implies #[trigger] dirs[i][k]
        != ':' by {
        if dirs[i][k] == ':' {
            assert(dirs[i].subrange(k, k + 1) =~= seq![':']);
            assert(occurs_at(dirs[i], ":"@, k));
            assert(occurs(dirs[i], ":"@));
        }
    }
    pieces_undo_joined(dirs, ':');
}

/// No directory of a merged path has white space around it.
pub proof fn directories_are_trimmed(list: Seq<Text>)
    ensures
        forall|i: int|
            0 <= i < first_dirs(list).len() ==> trimmed(#[trigger] first_dirs(list)[i])
                == first_dirs(list)[i],
    decreases list.len(),
{
    let out = first_dirs(list);
    if list.len() > 0 {
        let front = first_dirs(list.drop_last());
        directories_are_trimmed(list.drop_last());
        trimmed_again(list.last());
        assert forall|i: int| 0 <= i < out.len() implies trimmed(#[trigger] out[i]) == out[i] by {
            if i < front.len() {
                assert(out[i] == front[i]);
            }
        }
    }
}

/// Directories that are trimmed, not blank and all different stay as they are.
proof fn tidy_dirs_stay(dirs: Seq<Text>)
    requires
        forall|i: int|
            0 <= i < dirs.len() ==> trimmed(#[trigger] dirs[i]) == dirs[i] && dirs[i].len() > 0,
        forall|i: int, j: int|
            0 <= i < j < dirs.len() ==> steps_of(#[trigger] dirs[i]) != steps_of(
                #[trigger] dirs[j],
            ),
    ensures
        first_dirs(dirs) == dirs,
    decreases dirs.len(),
{
    if dirs.len() > 0 {
        let front = dirs.drop_last();
        let last = dirs.len() - 1;
        assert forall|i: int| 0 <= i < front.len() implies trimmed(#[trigger] front[i]) == front[i]
            && front[i].len() > 0 by {
            assert(front[i] == dirs[i]);
        }
        assert forall|i: int, j: int| 0 <= i < j < front.len() implies steps_of(
            #[trigger] front[i],
        ) != steps_of(#[trigger] front[j]) by {
            assert(front[i] == dirs[i] && front[j] == dirs[j]);
        }
        tidy_dirs_stay(front);
        assert(dirs[last] == dirs.last());
        if has_dir(front, dirs.last()) {
            let i = choose|i: int|
                0 <= i < front.len() && steps_of(#[trigger] front[i]) == steps_of(dirs.last());
            assert(steps_of(dirs[i]) != steps_of(dirs[last]));
        }
        assert(front.push(dirs.last()) =~= dirs);
    } else {
        assert(first_dirs(dirs) =~= dirs);
    }
}

proof fn known_dirs_add_nothing(list: Seq<Text>, more: Seq<Text>)
    requires
        forall|k: int|
            0 <= k < more.len() && trimmed(#[trigger] more[k]).len() > 0 ==> has_dir(
                first_dirs(list),
                trimmed(more[k]),
            ),
    ensures
        first_dirs(list + more) == first_dirs(list),
    decreases more.len(),
{
    if more.len() == 0 {
        assert(list + more =~= list);
    } else {
        let front = more.drop_last();
        assert forall|k: int|
            0 <= k < front.len() && trimmed(#[trigger] front[k]).len() > 0 implies has_dir(
            first_dirs(list),
            trimmed(front[k]),
        ) by {
            assert(front[k] == more[k]);
        }
        known_dirs_add_nothing(list, front);
        assert((list + more).drop_last() =~= list + front);
        assert(more[more.len() - 1] == more.last());
    }
}

proof fn pieces_hold_no_separator(s: Text, sep: char)
    ensures
        forall|i: int, k: int|
            0 <= i < pieces(s, sep).len() && 0 <= k < pieces(s, sep)[i].len() ==> #[trigger] pieces(
                s,
                sep,
            )[i][k] != sep,
        pieces(s, sep).len() > 0,
    decreases s.len(),
{
    let all = pieces(s, sep);
    if s.len() > 0 {
        let before = pieces(s.drop_last(), sep);
        pieces_hold_no_separator(s.drop_last(), sep);
        assert forall|i: int, k: int|
            0 <= i < all.len() && 0 <= k < all[i].len() implies #[trigger] all[i][k] != sep by {
            if i < before.len() - 1 || (s.last() == sep && i < before.len()) {
                assert(all[i] == before[i]);
                assert(before[i][k] != sep);
            } else if s.last() != sep {
                let last = before.len() - 1;
                if k < before[last].len() {
                    assert(before[last][k] != sep);
                }
            }
        }
    }
}

proof fn dirs_hold_no_separator(list: Seq<Text>)
    requires
        forall|i: int| 0 <= i < list.len() ==> !occurs(#[trigger] list[i], ":"@),
    ensures
        can_join(first_dirs(list)),
    decreases list.len(),
{
    let out = first_dirs(list);
    if list.len() > 0 {
        let rest = list.drop_last();
        assert forall|i: int| 0 <= i < rest.len() implies !occurs(#[trigger] rest[i], ":"@) by {
            assert(rest[i] == list[i]);
        }
        dirs_hold_no_separator(rest);
        assert(list[list.len() - 1] == list.last());
        trimmed_adds_nothing(list.last(), ":"@);
        assert forall|i: int| 0 <= i < out.len() implies !occurs(#[trigger] out[i], ":"@) by {
            if i < first_dirs(rest).len() {
                assert(out[i] == first_dirs(rest)[i]);
            }
        }
    }
}

proof fn candidates_hold_no_separator(current: Text, login: Option<Text>, extras: Seq<Text>)
    requires
        can_join(extras),
    ensures
        can_join(first_dirs(candidates(current, login, extras))),
{
    reveal_strlit(":");
    let first = match login {
        Some(path) => path,
        None => Seq::empty(),
    };
    let all = candidates(current, login, extras);
    let (p, q) = (pieces(first, ':'), pieces(current, ':'));
    pieces_hold_no_separator(first, ':');
    pieces_hold_no_separator(current, ':');
    assert forall|i: int| 0 <= i < all.len() implies !occurs(#[trigger] all[i], ":"@) by {
        if i < p.len() + q.len() {
            if occurs(all[i], ":"@) {
                let at = choose|at: int| occurs_at(all[i], ":"@, at);
                assert(all[i].subrange(at, at + 1)[0] == ':');
                assert(all[i][at] == ':');
                if i < p.len() {
                    assert(p[i][at] != ':');
                } else {
                    assert(q[i - p.len()][at] != ':');
                }
            }
        } else {
            assert(all[i] == extras[i - p.len() - q.len()]);
        }
    }
    dirs_hold_no_separator(all);
}

/// Merging is done once: a merged path, merged with the same extras again, stays
/// as it is.
pub proof fn merging_again_changes_nothing(current: Text, login: Option<Text>, extras: Seq<Text>)
    requires
        can_join(extras),
    ensures
        ({
            let m = merged_path(current, login, extras);
            merged_path(m, None, extras) == m
        }),
{
    let all = candidates(current, login, extras);
    let dirs = first_dirs(all);
    let m = merged_path(current, login, extras);
    let none = Seq::<Text>::empty();
    let blank = seq![Seq::<char>::empty()];
    candidates_hold_no_separator(current, login, extras);
    directories_appear_once(all);
    directories_are_trimmed(all);
    tidy_dirs_stay(dirs);
    assert(pieces(Seq::<char>::empty(), ':') == blank);
    assert forall|k: int| 0 <= k < extras.len() && trimmed(#[trigger] extras[k]).len() > 0 implies
        has_dir(dirs, trimmed(extras[k])) by {
        let at = all.len() - extras.len() + k;
        assert(all[at] == extras[k]);
        directories_are_kept(all, at);
    }
    assert(first_dirs(blank) == none) by {
        assert(blank.drop_last() =~= none);
        assert(first_dirs(none) =~= none);
        assert(trimmed(blank.last()).len() == 0);
    }
    let again = pieces(m, ':');
    if dirs.len() > 0 {
        merged_path_reads_back(current, login, extras);
        blanks_in_front(blank, dirs);
    } else {
        assert(m == Seq::<char>::empty());
        assert(first_dirs(blank + blank) == none) by {
            assert((blank + blank).drop_last() =~= blank);
        }
        assert(dirs =~= none);
    }
    assert(first_dirs(blank + again) == dirs);
    known_dirs_add_nothing(blank + again, extras);
    assert(candidates(m, None, extras) == blank + again + extras);
}

proof fn blanks_in_front(blank: Seq<Text>, dirs: Seq<Text>)
    requires
        first_dirs(blank).len() == 0,
    ensures
        first_dirs(blank + dirs) == first_dirs(dirs),
    decreases dirs.len(),
{
    if dirs.len() == 0 {
        assert(blank + dirs =~= blank);
        assert(first_dirs(blank) =~= first_dirs(dirs));
    } else {
        assert((blank + dirs).drop_last() =~= blank + dirs.drop_last());
        blanks_in_front(blank, dirs.drop_last());
    }
}

// ── What makes directories the same ──────────────────────────────────────

proof fn steps_behind(first: Seq<Text>, rest: Seq<Text>)
    requires
        first.len() > 0,
    ensures
        steps_among(first + rest) == steps_among(first) + rest.filter(
            |p: Text| p.len() > 0 && p != "."@,
        ),
    decreases rest.len(),
{
    reveal(Seq::filter);
    let keep = |p: Text| p.len() > 0 && p != "."@;
    if rest.len() == 0 {
        assert(first + rest =~= first);
        assert(steps_among(first) + rest.filter(keep) =~= steps_among(first));
    } else {
        assert((first + rest).drop_last() =~= first + rest.drop_last());
        steps_behind(first, rest.drop_last());
        assert(steps_among(first + rest) =~= steps_among(first) + rest.filter(keep));
    }
}

/// What a slash is followed by leads further down, step by step; empty steps and
/// dots lead nowhere. So a slash at the end, two slashes for one, and a dot
/// between them make no difference; another name, or another order, does.
pub proof fn slashes_lead_down(a: Text, b: Text)
    ensures
        steps_of(a + "/"@ + b).steps == steps_of(a).steps + pieces(b, '/').filter(
            |p: Text| p.len() > 0 && p != "."@,
        ),
        a.len() > 0 ==> steps_of(a + "/"@ + b).rooted == steps_of(a).rooted,
        a.len() == 0 ==> steps_of(a + "/"@ + b).rooted,
{
    reveal_strlit("/");
    let whole = a + "/"@ + b;
    assert(whole =~= a.push('/') + b);
    pieces_add_up(a, '/', b);
    pieces_is_never_empty(a, '/');
    steps_behind(pieces(a, '/'), pieces(b, '/'));
    if a.len() > 0 {
        assert(whole[0] == a[0]);
    } else {
        assert(whole[0] == '/');
    }
}

/// A name by itself is one step, and does not start at the root.
pub proof fn names_are_single_steps(name: Text)
    requires
        name.len() > 0,
        forall|i: int| 0 <= i < name.len() ==> #[trigger] name[i] != '/',
    ensures
        steps_of(name).steps == seq![name],
        !steps_of(name).rooted,
        steps_of(Seq::empty()).steps.len() == 0,
{
    one_piece(name, '/');
    let one = seq![name];
    assert(one.drop_last() =~= Seq::<Text>::empty());
    assert(steps_among(Seq::empty()) =~= Seq::<Text>::empty());
    assert(steps_among(one) =~= one);
    let none = Seq::<char>::empty();
    let blank = seq![none];
    assert(pieces(none, '/') == blank);
    assert(blank.drop_last() =~= Seq::<Text>::empty());
}

/// The login shell is believed first: its directories stand in front, as they
/// would by themselves, then those there were, then the extra ones, each whole.
pub proof fn the_login_shell_comes_first(current: Text, login: Text, extras: Seq<Text>)
    ensures
        ({
            let all = first_dirs(candidates(current, Some(login), extras));
            let first = first_dirs(pieces(login, ':'));
            let second = first_dirs(pieces(login, ':') + pieces(current, ':'));
            &&& first.len() <= second.len() <= all.len()
            &&& all.take(first.len() as int) == first
            &&& all.take(second.len() as int) == second
        }),
        candidates(current, None, extras) == seq![Seq::<char>::empty()] + pieces(current, ':')
            + extras,
{
    let a = pieces(login, ':');
    let b = pieces(current, ':');
    earlier_directories_win(a + b, extras);
    earlier_directories_win(a, b);
    let all = first_dirs(a + b + extras);
    let first = first_dirs(a);
    let second = first_dirs(a + b);
    assert(all.take(first.len() as int) =~= all.take(second.len() as int).take(first.len() as int));
    assert(pieces(Seq::<char>::empty(), ':') == seq![Seq::<char>::empty()]);
}

/// The directories to fall back on are those of the package manager and of the
/// system, in the order in which they are searched, and behind them one more
/// where there is one.
pub proof fn fallbacks_are_the_usual_places(more: Text)
    ensures
        ({
            let all = extras_of(None);
            &&& all.len() == 7
            &&& all[0] == "/opt/homebrew/bin"@ && all[1] == "/opt/homebrew/sbin"@
            &&& all[2] == "/usr/local/bin"@ && all[3] == "/usr/bin"@ && all[4] == "/bin"@
            &&& all[5] == "/usr/sbin"@ && all[6] == "/sbin"@
            &&& extras_of(Some(more)) == all.push(more)
        }),
{
}

/// Directories that were taken apart are tidied one by one: what is around them
/// is trimmed, and those that are blank are dropped. Of each, the first is kept.
pub proof fn directories_are_tidied_in_turn(
    list: Seq<Text>,
    dir: Text,
    dirs: Seq<Text>,
    parts: Seq<Seq<Text>>,
    own: Seq<Text>,
)
    requires
        dirs.len() == parts.len(),
    ensures
        trimmed(dir).len() > 0 ==> tidied(list.push(dir)) == tidied(list).push(trimmed(dir)),
        trimmed(dir).len() == 0 ==> tidied(list.push(dir)) == tidied(list),
        tidied(Seq::empty()).len() == 0,
        parts.contains(own) ==> kept_first(dirs.push(dir), parts.push(own)) == kept_first(
            dirs,
            parts,
        ),
        !parts.contains(own) ==> kept_first(dirs.push(dir), parts.push(own)) == kept_first(
            dirs,
            parts,
        ).push(dir),
        kept_first(Seq::empty(), Seq::empty()).len() == 0,
{
    assert(list.push(dir).drop_last() =~= list);
    assert(dirs.push(dir).drop_last() =~= dirs);
    assert(parts.push(own).drop_last() =~= parts);
}

/// A directory that holds the separator itself cannot be written into a path:
/// then the path stays as it was. Otherwise the directories stand in it with the
/// separator between them.
pub proof fn paths_that_cannot_be_written_stay(
    current: Text,
    login: Option<Text>,
    extras: Seq<Text>,
    i: int,
)
    ensures
        ({
            let dirs = first_dirs(candidates(current, login, extras));
            &&& 0 <= i < dirs.len() && occurs(dirs[i], ":"@) ==> merged_path(current, login, extras)
                == current
            &&& (forall|k: int| 0 <= k < dirs.len() ==> !occurs(#[trigger] dirs[k], ":"@))
                ==> merged_path(current, login, extras) == joined(dirs, ":"@)
        }),
{
}

} // verus!
