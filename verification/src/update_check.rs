//! Whether a newer release is available, and where this machine gets it.

use crate::order::{
    arrange, arranged, arranged_forgets_order, arranged_in_order, is_order, told_apart, Arrange,
};
use crate::text::{
    chars_of, concat, contains, decimal, decimal_tells_apart, is_before, is_digit, joined, lowered,
    names_in_turn, numbers_read_back, occurs, pieces, pieces_undo_joined, precedes,
    precedes_is_irreflexive, precedes_is_total, precedes_is_transitive, read_u32, same, split,
    text_of, to_lower, u32_value, Text,
};
use vstd::prelude::*;

verus! {

/// Where the releases are described, alongside the builds themselves.
pub const LATEST_URL: &'static str =
    "https://mayorana.ch/downloads/ais-tracing/latest/latest.json";

/// Where the user is sent to pick a build by hand when a release has none for
/// this machine, instead of at a link that leads nowhere.
pub const RELEASES_URL: &'static str = "https://mayorana.ch/en/apps";

// ── Versions ─────────────────────────────────────────────────────────────

/// `s` without any letter v at its beginning.
pub open spec fn without_v(s: Text) -> Text
    decreases s.len(),
{
    if s.len() > 0 && s[0] == 'v' {
        without_v(s.drop_first())
    } else {
        s
    }
}

/// What stands in front of the first dash or plus sign of `s`.
pub open spec fn before_suffix(s: Text) -> Text
    decreases s.len(),
{
    if s.len() == 0 || s[0] == '-' || s[0] == '+' {
        Seq::empty()
    } else {
        seq![s[0]] + before_suffix(s.drop_first())
    }
}

/// The three numbers of a version; what follows them is ignored.
pub open spec fn version_of(s: Text) -> Option<(u32, u32, u32)> {
    let parts = pieces(without_v(s), '.');
    if parts.len() < 3 {
        None
    } else {
        match (u32_value(parts[0]), u32_value(parts[1]), u32_value(before_suffix(parts[2]))) {
            (Some(major), Some(minor), Some(patch)) => Some((major, minor, patch)),
            _ => None,
        }
    }
}

/// Whether the version `a` comes after `b`.
pub open spec fn comes_after(a: (u32, u32, u32), b: (u32, u32, u32)) -> bool {
    a.0 > b.0 || (a.0 == b.0 && (a.1 > b.1 || (a.1 == b.1 && a.2 > b.2)))
}

/// Whether the version that `a` names is newer than the one that `b` names: no,
/// if one of them names none.
pub open spec fn newer(a: Text, b: Text) -> bool {
    match (version_of(a), version_of(b)) {
        (Some(x), Some(y)) => comes_after(x, y),
        _ => false,
    }
}

fn strip_v(s: &str) -> (out: String)
    ensures
        out@ == without_v(s@),
{
    let x = chars_of(s);
    let mut from: usize = 0;
    assert(x@.skip(0) =~= x@);
    while from < x.len() && x[from] == 'v'
        invariant
            x@ == s@,
            from <= x@.len(),
            without_v(s@) == without_v(x@.skip(from as int)),
        decreases x.len() - from,
    {
        assert(x@.skip(from as int)[0] == 'v');
        assert(x@.skip(from as int).drop_first() =~= x@.skip(from + 1));
        from = from + 1;
    }
    let ghost rest = x@.skip(from as int);
    assert(without_v(rest) == rest);
    assert(rest =~= x@.subrange(from as int, x@.len() as int));
    text_of(&x, from, x.len())
}

proof fn before_suffix_at(s: Text, at: int)
    requires
        0 <= at <= s.len(),
        forall|j: int| 0 <= j < at ==> s[j] != '-' && s[j] != '+',
        at < s.len() ==> s[at] == '-' || s[at] == '+',
    ensures
        before_suffix(s) == s.take(at),
    decreases s.len(),
{
    if at == 0 {
        assert(s.take(0) =~= Seq::<char>::empty());
    } else {
        let rest = s.drop_first();
        assert forall|j: int| 0 <= j < at - 1 implies rest[j] != '-' && rest[j] != '+' by {
            assert(rest[j] == s[j + 1]);
        }
        before_suffix_at(rest, at - 1);
        assert(s[0] != '-' && s[0] != '+');
        assert(seq![s[0]] + rest.take(at - 1) =~= s.take(at));
    }
}

fn cut_suffix(s: &str) -> (out: String)
    ensures
        out@ == before_suffix(s@),
{
    let x = chars_of(s);
    let mut to: usize = 0;
    while to < x.len() && x[to] != '-' && x[to] != '+'
        invariant
            x@ == s@,
            to <= x@.len(),
            forall|j: int| 0 <= j < to ==> x@[j] != '-' && x@[j] != '+',
        decreases x.len() - to,
    {
        to = to + 1;
    }
    proof {
        before_suffix_at(s@, to as int);
    }
    let out = text_of(&x, 0, to);
    assert(out@ =~= s@.take(to as int));
    out
}

fn read_version(s: &str) -> (out: Option<(u32, u32, u32)>)
    ensures
        out == version_of(s@),
{
    let bare = strip_v(s);
    let parts = split(bare.as_str(), '.');
    let ghost all = parts.deep_view();
    if parts.len() < 3 {
        return None;
    }
    assert(all[0] == parts@[0]@ && all[1] == parts@[1]@ && all[2] == parts@[2]@);
    let patch = cut_suffix(parts[2].as_str());
    match (read_u32(parts[0].as_str()), read_u32(parts[1].as_str()), read_u32(patch.as_str())) {
        (Some(major), Some(minor), Some(patch)) => Some((major, minor, patch)),
        _ => None,
    }
}

/// Whether `a` is a newer version than `b`. Anything that is no version is
/// never newer.
pub fn is_newer(a: &str, b: &str) -> (r: bool)
    ensures
        r == newer(a@, b@),
{
    match (read_version(a), read_version(b)) {
        (Some(x), Some(y)) => x.0 > y.0 || (x.0 == y.0 && (x.1 > y.1 || (x.1 == y.1 && x.2
            > y.2))),
        _ => false,
    }
}

/// Nothing is newer than itself, of two versions at most one is newer than the
/// other, and what is newer than a newer one is newer.
pub proof fn newer_is_an_order(a: Text, b: Text, c: Text)
    ensures
        !newer(a, a),
        newer(a, b) ==> !newer(b, a),
        newer(a, b) && newer(b, c) ==> newer(a, c),
{
}

// ── Builds ───────────────────────────────────────────────────────────────

/// One build of a release.
#[derive(Debug, PartialEq, Eq)]
pub struct Build {
    pub key: String,
    pub url: String,
}

/// One build of a release, as contracts speak of it.
pub struct BuildView {
    pub key: Text,
    pub url: Text,
}

impl View for Build {
    type V = BuildView;

    open spec fn view(&self) -> BuildView {
        BuildView { key: self.key@, url: self.url@ }
    }
}

impl DeepView for Build {
    type V = BuildView;

    open spec fn deep_view(&self) -> BuildView {
        self@
    }
}

/// The builds of a release, in no particular order.
#[derive(Debug, PartialEq, Eq)]
pub struct Platforms {
    pub macos: Vec<Build>,
    pub windows: Vec<Build>,
    pub linux: Vec<Build>,
}

/// The builds of a release, as contracts speak of it.
pub struct PlatformsView {
    pub macos: Seq<BuildView>,
    pub windows: Seq<BuildView>,
    pub linux: Seq<BuildView>,
}

impl View for Platforms {
    type V = PlatformsView;

    open spec fn view(&self) -> PlatformsView {
        PlatformsView {
            macos: self.macos.deep_view(),
            windows: self.windows.deep_view(),
            linux: self.linux.deep_view(),
        }
    }
}

/// Builds go by key, then by address.
pub open spec fn build_before(a: BuildView, b: BuildView) -> bool {
    precedes(a.key, b.key) || (a.key == b.key && precedes(a.url, b.url))
}

/// The order of `build_before`.
pub open spec fn by_key() -> spec_fn(BuildView, BuildView) -> bool {
    |a: BuildView, b: BuildView| build_before(a, b)
}

impl Arrange for Build {
    open spec fn before() -> spec_fn(BuildView, BuildView) -> bool {
        by_key()
    }

    fn comes_before(&self, other: &Self) -> (r: bool) {
        is_before(self.key.as_str(), other.key.as_str()) || (same(
            self.key.as_str(),
            other.key.as_str(),
        ) && is_before(self.url.as_str(), other.url.as_str()))
    }
}

/// The builds that have an address.
pub open spec fn addressed(builds: Seq<BuildView>) -> Seq<BuildView>
    decreases builds.len(),
{
    if builds.len() == 0 {
        Seq::empty()
    } else if builds.last().url.len() == 0 {
        addressed(builds.drop_last())
    } else {
        addressed(builds.drop_last()).push(builds.last())
    }
}

/// What is searched for the name of an architecture.
pub open spec fn haystack(build: BuildView) -> Text {
    lowered(build.key + " "@ + build.url)
}

/// Whether a build is named after the architecture `arch`: the spellings that
/// appear in the names of builds, and which machine each belongs to.
pub open spec fn names_arch(arch: Text, build: BuildView) -> bool {
    let text = haystack(build);
    ||| arch == "aarch64"@ && (occurs(text, "aarch64"@) || occurs(text, "arm64"@))
    ||| arch == "x86_64"@ && (occurs(text, "x86_64"@) || occurs(text, "x86-64"@) || occurs(
        text,
        "amd64"@,
    ) || occurs(text, "x64"@))
}

/// Whether a build is named after any architecture.
pub open spec fn names_any_arch(build: BuildView) -> bool {
    names_arch("aarch64"@, build) || names_arch("x86_64"@, build)
}

/// The first of `builds` that is named after `arch`.
pub open spec fn first_named(arch: Text, builds: Seq<BuildView>) -> Option<BuildView>
    decreases builds.len(),
{
    if builds.len() == 0 {
        None
    } else if names_arch(arch, builds[0]) {
        Some(builds[0])
    } else {
        first_named(arch, builds.drop_first())
    }
}

/// The build for a machine with the architecture `arch`: the first that is
/// named after it; or the only one there is, if it is named after none, for
/// then there is one build for every machine. But if some build *is* named
/// after an architecture and none after this one, there is none, rather than
/// one that will not run.
pub open spec fn build_for(arch: Text, builds: Seq<BuildView>) -> Option<BuildView> {
    match first_named(arch, builds) {
        Some(build) => Some(build),
        None => if builds.len() == 1 && !names_any_arch(builds[0]) {
            Some(builds[0])
        } else {
            None
        },
    }
}

/// The builds for the operating system `os`.
pub open spec fn builds_on(platforms: PlatformsView, os: Text) -> Option<Seq<BuildView>> {
    if os == "macos"@ {
        Some(platforms.macos)
    } else if os == "windows"@ {
        Some(platforms.windows)
    } else if os == "linux"@ {
        Some(platforms.linux)
    } else {
        None
    }
}

/// Where a machine gets its build. The marker says that the request comes from
/// an existing install.
pub open spec fn url_for(platforms: PlatformsView, os: Text, arch: Text) -> Text {
    match builds_on(platforms, os) {
        Some(builds) => match build_for(arch, arranged(addressed(builds), by_key())) {
            Some(build) => build.url + "?src=updater"@,
            None => RELEASES_URL@,
        },
        None => RELEASES_URL@,
    }
}

fn haystack_of(build: &Build) -> (out: String)
    ensures
        out@ == haystack(build@),
{
    let front = concat(build.key.as_str(), " ");
    let all = concat(front.as_str(), build.url.as_str());
    to_lower(all.as_str())
}

fn is_named_after(arch: &str, build: &Build) -> (r: bool)
    ensures
        r == names_arch(arch@, build@),
{
    let text = haystack_of(build);
    let t = text.as_str();
    (same(arch, "aarch64") && (contains(t, "aarch64") || contains(t, "arm64"))) || (same(
        arch,
        "x86_64",
    ) && (contains(t, "x86_64") || contains(t, "x86-64") || contains(t, "amd64") || contains(
        t,
        "x64",
    )))
}

fn find_addressed(builds: &Vec<Build>) -> (out: Vec<Build>)
    ensures
        out.deep_view() == addressed(builds.deep_view()),
{
    let ghost all = builds.deep_view();
    let mut out: Vec<Build> = Vec::new();
    let mut i: usize = 0;
    assert(out.deep_view() =~= Seq::<BuildView>::empty());
    while i < builds.len()
        invariant
            all == builds.deep_view(),
            i <= builds@.len(),
            out.deep_view() == addressed(all.take(i as int)),
        decreases builds.len() - i,
    {
        let build = &builds[i];
        assert(all.take(i + 1).drop_last() =~= all.take(i as int));
        assert(all.take(i + 1).last() == build@);
        if !build.url.as_str().is_empty() {
            let ghost before = out.deep_view();
            out.push(Build { key: build.key.clone(), url: build.url.clone() });
            assert(out.deep_view() =~= before.push(build@));
        }
        i = i + 1;
    }
    assert(all.take(i as int) =~= all);
    out
}

fn choose_build(arch: &str, builds: &Vec<Build>) -> (out: Option<String>)
    ensures
        out.deep_view() == (match build_for(arch@, builds.deep_view()) {
            Some(build) => Some(build.url),
            None => None,
        }),
{
    let ghost all = builds.deep_view();
    let mut i: usize = 0;
    assert(all.skip(0) =~= all);
    while i < builds.len()
        invariant
            all == builds.deep_view(),
            i <= builds@.len(),
            first_named(arch@, all) == first_named(arch@, all.skip(i as int)),
        decreases builds.len() - i,
    {
        assert(all.skip(i as int)[0] == builds@[i as int]@);
        assert(all.skip(i as int).drop_first() =~= all.skip(i + 1));
        if is_named_after(arch, &builds[i]) {
            return Some(builds[i].url.clone());
        }
        i = i + 1;
    }
    assert(all.len() == builds@.len());
    if builds.len() == 1 {
        assert(all[0] == builds@[0]@);
        if !is_named_after("aarch64", &builds[0]) && !is_named_after("x86_64", &builds[0]) {
            return Some(builds[0].url.clone());
        }
    }
    None
}

/// Picks the build published for a machine. Anything ambiguous falls back to
/// the landing page, where the user can choose.
pub fn platform_url(platforms: &Platforms, os: &str, arch: &str) -> (out: String)
    ensures
        out@ == url_for(platforms@, os@, arch@),
{
    let builds = if same(os, "macos") {
        &platforms.macos
    } else if same(os, "windows") {
        &platforms.windows
    } else if same(os, "linux") {
        &platforms.linux
    } else {
        return RELEASES_URL.to_owned();
    };
    let entries = arrange(find_addressed(builds));
    match choose_build(arch, &entries) {
        Some(url) => concat(url.as_str(), "?src=updater"),
        None => RELEASES_URL.to_owned(),
    }
}

// ── Updates ──────────────────────────────────────────────────────────────

/// What is published of the latest release.
#[derive(Debug, PartialEq, Eq)]
pub struct Latest {
    pub version: String,
    pub tag: String,
    pub platforms: Platforms,
}

/// An update that is available.
#[derive(Debug, PartialEq, Eq)]
pub struct UpdateInfo {
    pub latest_version: String,
    pub latest_tag: String,
    /// Direct link to this machine's build, so that the banner's button
    /// downloads the binary itself rather than opening a page to pick one from.
    pub release_url: String,
}

impl Clone for UpdateInfo {
    fn clone(&self) -> (out: Self)
        ensures
            out.latest_version@ == self.latest_version@,
            out.latest_tag@ == self.latest_tag@,
            out.release_url@ == self.release_url@,
    {
        UpdateInfo {
            latest_version: self.latest_version.clone(),
            latest_tag: self.latest_tag.clone(),
            release_url: self.release_url.clone(),
        }
    }
}

/// The update that is available to the version `current`, if the latest release
/// is newer. `latest` is nothing where it could not be fetched or read.
pub fn check(latest: Option<Latest>, current: &str, os: &str, arch: &str) -> (out: Option<
    UpdateInfo,
>)
    ensures
        out is Some <==> latest is Some && newer(latest->0.version@, current@),
        out is Some ==> {
            &&& out->0.latest_version@ == latest->0.version@
            &&& out->0.latest_tag@ == latest->0.tag@
            &&& out->0.release_url@ == url_for(latest->0.platforms@, os@, arch@)
        },
{
    match latest {
        Some(latest) => if is_newer(latest.version.as_str(), current) {
            let release_url = platform_url(&latest.platforms, os, arch);
            Some(
                UpdateInfo {
                    latest_version: latest.version,
                    latest_tag: latest.tag,
                    release_url,
                },
            )
        } else {
            None
        },
        None => None,
    }
}

// ── What holds of every release ──────────────────────────────────────────

proof fn by_key_is_order()
    ensures
        is_order(by_key()),
{
    let before = by_key();
    assert forall|a: BuildView, b: BuildView| #[trigger] before(a, b) implies !before(b, a) by {
        names_in_turn(a.key, b.key, a.key);
        names_in_turn(a.url, b.url, a.url);
        precedes_is_irreflexive(a.key);
    }
    assert forall|a: BuildView, b: BuildView, c: BuildView|
        !#[trigger] before(a, b) && !#[trigger] before(b, c) implies !before(a, c) by {
        names_in_turn(a.key, b.key, c.key);
        names_in_turn(a.url, b.url, c.url);
        precedes_is_total(a.key, b.key);
        precedes_is_total(b.key, c.key);
        if precedes(b.key, a.key) && precedes(c.key, b.key) {
            precedes_is_transitive(c.key, b.key, a.key);
        }
        precedes_is_irreflexive(a.key);
        precedes_is_irreflexive(b.key);
    }
}

proof fn addressed_counts(s: Seq<BuildView>, b: BuildView)
    ensures
        addressed(s).to_multiset().count(b) == (if b.url.len() == 0 {
            0
        } else {
            s.to_multiset().count(b)
        }),
    decreases s.len(),
{
    broadcast use vstd::seq_lib::group_to_multiset_ensures;

    if s.len() > 0 {
        addressed_counts(s.drop_last(), b);
        assert(s =~= s.drop_last().push(s.last()));
    }
}

/// The same release always resolves to the same build, in whatever order its
/// builds are listed.
pub proof fn same_release_same_build(a: Seq<BuildView>, b: Seq<BuildView>, arch: Text)
    requires
        a.to_multiset() == b.to_multiset(),
    ensures
        build_for(arch, arranged(addressed(a), by_key())) == build_for(
            arch,
            arranged(addressed(b), by_key()),
        ),
{
    by_key_is_order();
    assert(addressed(a).to_multiset() =~= addressed(b).to_multiset()) by {
        assert forall|x: BuildView|
            addressed(a).to_multiset().count(x) == addressed(b).to_multiset().count(x) by {
            addressed_counts(a, x);
            addressed_counts(b, x);
        }
    }
    let before = by_key();
    assert(told_apart(addressed(a), before)) by {
        let s = addressed(a);
        assert forall|i: int, j: int| 0 <= i < s.len() && 0 <= j < s.len() implies s[i] == s[j]
            || before(#[trigger] s[i], #[trigger] s[j]) || before(s[j], s[i]) by {
            precedes_is_total(s[i].key, s[j].key);
            precedes_is_total(s[i].url, s[j].url);
        }
    }
    arranged_forgets_order(addressed(a), addressed(b), before);
}

/// A machine is never handed a build that is named after another architecture
/// only: what it gets is one of the builds, and is named after this machine's
/// architecture or after none. It gets none only where none is named after its
/// own.
pub proof fn build_can_run(builds: Seq<BuildView>, arch: Text)
    ensures
        match build_for(arch, builds) {
            Some(build) => builds.contains(build) && (names_arch(arch, build) || !names_any_arch(
                build,
            )),
            None => forall|i: int| 0 <= i < builds.len() ==> !names_arch(arch, #[trigger] builds[i]),
        },
{
    first_named_is_there(arch, builds);
    if builds.len() == 1 {
        assert(builds.contains(builds[0]));
    }
}

proof fn first_named_is_there(arch: Text, builds: Seq<BuildView>)
    ensures
        match first_named(arch, builds) {
            Some(build) => builds.contains(build) && names_arch(arch, build),
            None => forall|i: int| 0 <= i < builds.len() ==> !names_arch(arch, #[trigger] builds[i]),
        },
    decreases builds.len(),
{
    if builds.len() > 0 {
        let rest = builds.drop_first();
        first_named_is_there(arch, rest);
        if names_arch(arch, builds[0]) {
            assert(builds.contains(builds[0]));
        } else {
            match first_named(arch, rest) {
                Some(build) => {
                    let k = choose|k: int| 0 <= k < rest.len() && rest[k] == build;
                    assert(builds[k + 1] == build);
                },
                None => {
                    assert forall|i: int| 0 <= i < builds.len() implies !names_arch(
                        arch,
                        #[trigger] builds[i],
                    ) by {
                        if i > 0 {
                            assert(rest[i - 1] == builds[i]);
                        }
                    }
                },
            }
        }
    }
}

// ── What an update promises ──────────────────────────────────────────────

/// A version written out: three numbers with dots between them, and behind them
/// whatever release it is.
pub open spec fn written(a: u32, b: u32, c: u32, release: Text) -> Text {
    decimal(a as nat) + "."@ + decimal(b as nat) + "."@ + decimal(c as nat) + release
}

/// Whether `release` can stand behind a version: nothing, or something that a
/// dash or a plus sign begins and that holds no dot.
pub open spec fn is_release(release: Text) -> bool {
    &&& release.len() > 0 ==> release[0] == '-' || release[0] == '+'
    &&& forall|i: int| 0 <= i < release.len() ==> #[trigger] release[i] != '.'
}

proof fn digits_hold_no_dot(n: nat)
    ensures
        decimal(n).len() > 0,
        forall|i: int|
            0 <= i < decimal(n).len() ==> #[trigger] decimal(n)[i] != '.' && decimal(n)[i] != '-'
                && decimal(n)[i] != '+' && decimal(n)[i] != 'v',
{
    decimal_tells_apart(n, n);
    assert forall|i: int| 0 <= i < decimal(n).len() implies #[trigger] decimal(n)[i] != '.'
        && decimal(n)[i] != '-' && decimal(n)[i] != '+' && decimal(n)[i] != 'v' by {
        assert(is_digit(decimal(n)[i]));
    }
}

/// A version is read as the three numbers it is written with, with or without
/// the letter v in front, whatever release follows.
pub proof fn versions_read_back(a: u32, b: u32, c: u32, release: Text)
    requires
        is_release(release),
    ensures
        version_of(written(a, b, c, release)) == Some((a, b, c)),
        version_of(seq!['v'] + written(a, b, c, release)) == Some((a, b, c)),
{
    reveal_strlit(".");
    let (x, y, z) = (decimal(a as nat), decimal(b as nat), decimal(c as nat));
    let last = z + release;
    let parts = seq![x, y, last];
    let text = written(a, b, c, release);
    digits_hold_no_dot(a as nat);
    digits_hold_no_dot(b as nat);
    digits_hold_no_dot(c as nat);
    assert forall|i: int, k: int|
        0 <= i < parts.len() && 0 <= k < parts[i].len() implies #[trigger] parts[i][k] != '.' by {
        if i == 0 {
            assert(x[k] != '.');
        } else if i == 1 {
            assert(y[k] != '.');
        } else if k < z.len() {
            assert(last[k] == z[k]);
        } else {
            assert(last[k] == release[k - z.len()]);
        }
    }
    pieces_undo_joined(parts, '.');
    let dot = seq!['.'];
    assert(parts.drop_last() =~= seq![x, y]);
    assert(seq![x, y].drop_last() =~= seq![x]);
    assert(joined(seq![x], dot) == x);
    assert(joined(seq![x, y], dot) == x + dot + y);
    assert(joined(parts, dot) == x + dot + y + dot + last);
    assert(text =~= joined(parts, dot));
    assert(text[0] == x[0]);
    assert(without_v(text) == text);
    let marked = seq!['v'] + text;
    assert(marked.drop_first() =~= text);
    assert(without_v(marked) == without_v(marked.drop_first()));
    assert forall|j: int| 0 <= j < z.len() implies last[j] != '-' && last[j] != '+' by {
        assert(last[j] == z[j]);
    }
    if release.len() > 0 {
        assert(last[z.len() as int] == release[0]);
    }
    before_suffix_at(last, z.len() as int);
    assert(last.take(z.len() as int) =~= z);
    numbers_read_back(0, a as nat);
    numbers_read_back(0, b as nat);
    numbers_read_back(0, c as nat);
}

/// A version is newer by its first number, where that is the same by its second,
/// and where that is the same too by its third; the numbers count as numbers,
/// not as texts. What names no version is never newer, and nothing is newer than
/// it.
pub proof fn newer_goes_by_the_numbers(
    a: (u32, u32, u32),
    b: (u32, u32, u32),
    r: Text,
    q: Text,
    s: Text,
)
    requires
        is_release(r),
        is_release(q),
        version_of(s) is None,
    ensures
        newer(written(a.0, a.1, a.2, r), written(b.0, b.1, b.2, q)) <==> {
            ||| a.0 > b.0
            ||| a.0 == b.0 && a.1 > b.1
            ||| a.0 == b.0 && a.1 == b.1 && a.2 > b.2
        },
        !newer(s, written(b.0, b.1, b.2, q)),
        !newer(written(a.0, a.1, a.2, r), s),
{
    versions_read_back(a.0, a.1, a.2, r);
    versions_read_back(b.0, b.1, b.2, q);
}

/// A build is named after an architecture by the spellings that are in use, in
/// its name or in its address, whatever their case.
pub proof fn builds_are_named_by_spelling(build: BuildView)
    ensures
        ({
            let text = lowered(build.key + " "@ + build.url);
            &&& names_arch("aarch64"@, build) <==> occurs(text, "aarch64"@) || occurs(
                text,
                "arm64"@,
            )
            &&& names_arch("x86_64"@, build) <==> occurs(text, "x86_64"@) || occurs(text, "x86-64"@)
                || occurs(text, "amd64"@) || occurs(text, "x64"@)
        }),
{
    reveal_strlit("aarch64");
    reveal_strlit("x86_64");
    assert("aarch64"@[0] != "x86_64"@[0]);
}

/// The build for a machine is the first that is named after its architecture.
/// Where none is, it is the only build there is, if that is named after none;
/// otherwise there is none.
pub proof fn machines_get_their_own_build(arch: Text, builds: Seq<BuildView>, k: int)
    ensures
        0 <= k < builds.len() && names_arch(arch, builds[k]) && (forall|m: int|
            0 <= m < k ==> !names_arch(arch, #[trigger] builds[m])) ==> build_for(arch, builds)
            == Some(builds[k]),
        (forall|m: int| 0 <= m < builds.len() ==> !names_arch(arch, #[trigger] builds[m])) ==> (
        build_for(arch, builds) is Some <==> builds.len() == 1 && !names_arch("aarch64"@, builds[0])
            && !names_arch("x86_64"@, builds[0])),
{
    if 0 <= k < builds.len() && names_arch(arch, builds[k]) && (forall|m: int|
        0 <= m < k ==> !names_arch(arch, #[trigger] builds[m])) {
        first_named_is_first(arch, builds, k);
    }
    if forall|m: int| 0 <= m < builds.len() ==> !names_arch(arch, #[trigger] builds[m]) {
        none_is_named(arch, builds);
    }
}

proof fn first_named_is_first(arch: Text, builds: Seq<BuildView>, k: int)
    requires
        0 <= k < builds.len(),
        names_arch(arch, builds[k]),
        forall|m: int| 0 <= m < k ==> !names_arch(arch, #[trigger] builds[m]),
    ensures
        first_named(arch, builds) == Some(builds[k]),
    decreases builds.len(),
{
    if k > 0 {
        let rest = builds.drop_first();
        assert(!names_arch(arch, builds[0]));
        assert forall|m: int| 0 <= m < k - 1 implies !names_arch(arch, #[trigger] rest[m]) by {
            assert(rest[m] == builds[m + 1]);
        }
        first_named_is_first(arch, rest, k - 1);
    }
}

proof fn none_is_named(arch: Text, builds: Seq<BuildView>)
    requires
        forall|m: int| 0 <= m < builds.len() ==> !names_arch(arch, #[trigger] builds[m]),
    ensures
        first_named(arch, builds) is None,
    decreases builds.len(),
{
    if builds.len() > 0 {
        let rest = builds.drop_first();
        assert(!names_arch(arch, builds[0]));
        assert forall|m: int| 0 <= m < rest.len() implies !names_arch(arch, #[trigger] rest[m]) by {
            assert(rest[m] == builds[m + 1]);
        }
        none_is_named(arch, rest);
    }
}

/// The builds that count are those with an address, and all of them.
pub proof fn builds_without_address_do_not_count(builds: Seq<BuildView>)
    ensures
        addressed(builds) == builds.filter(|b: BuildView| b.url.len() > 0),
    decreases builds.len(),
{
    reveal(Seq::filter);
    if builds.len() > 0 {
        builds_without_address_do_not_count(builds.drop_last());
    } else {
        assert(addressed(builds) =~= builds.filter(|b: BuildView| b.url.len() > 0));
    }
}

/// A machine is sent to the build for it among those of its own system, with the
/// updater's mark; to the list of releases where there is none, or where its
/// system is not known.
pub proof fn machines_are_sent_to_their_build(
    platforms: PlatformsView,
    arch: Text,
    os: Text,
    builds: Seq<BuildView>,
)
    requires
        os == "macos"@ && builds == platforms.macos || os == "windows"@ && builds
            == platforms.windows || os == "linux"@ && builds == platforms.linux,
    ensures
        match build_for(arch, arranged(addressed(builds), by_key())) {
            Some(build) => url_for(platforms, os, arch) == build.url + "?src=updater"@,
            None => url_for(platforms, os, arch) == "https://mayorana.ch/en/apps"@,
        },
        forall|other: Text|
            other != "macos"@ && other != "windows"@ && other != "linux"@ ==> #[trigger] url_for(
                platforms,
                other,
                arch,
            ) == "https://mayorana.ch/en/apps"@,
{
    reveal_strlit("macos");
    reveal_strlit("windows");
    reveal_strlit("linux");
    assert("macos"@[0] == 'm' && "windows"@[0] == 'w' && "linux"@[0] == 'l');
}

/// Builds are looked at in the order of their names, whatever order they came
/// in.
pub proof fn builds_go_by_name(builds: Seq<BuildView>, i: int, j: int)
    requires
        0 <= i < j < arranged(addressed(builds), by_key()).len(),
    ensures
        !precedes(
            arranged(addressed(builds), by_key())[j].key,
            arranged(addressed(builds), by_key())[i].key,
        ),
{
    let before = by_key();
    by_key_is_order();
    arranged_in_order(addressed(builds), before);
    let sorted = arranged(addressed(builds), before);
    assert(!before(sorted[j], sorted[i]));
}

} // verus!
