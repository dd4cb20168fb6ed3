//! The last scan of an account, kept so that the next start can open on it at
//! once while a fresh one runs behind.
//!
//! The cache is a convenience, never a source of truth: a corrupt or unreadable
//! one simply means a cold start, and a refresh always follows.

use crate::services::cosmos::ContainerSchema;
use crate::services::shapes::is_alphanumeric;
use crate::text::{
    chars_of, concat, decimal, decimal_tells_apart, is_digit, joined_undoes_pieces, number, occurs,
    occurs_at, pieces, pieces_go_on, same, text_of, Text,
};
use vstd::prelude::*;

verus! {

/// A scan of an account, and when it was made.
#[derive(Debug, PartialEq)]
pub struct CachedScan {
    /// Unix seconds, so the view can say how stale this is.
    pub scanned_at: i64,
    pub schemas: Vec<ContainerSchema>,
}

// ── File names ───────────────────────────────────────────────────────────

/// `s` with a dash in place of everything that is no ASCII letter or digit.
pub open spec fn dashed(s: Text) -> Text {
    s.map_values(
        |c: char|
            if is_alphanumeric(c) {
                c
            } else {
                '-'
            },
    )
}

/// Whether `s` holds nothing but letters, digits and dashes.
pub open spec fn is_plain(s: Text) -> bool {
    forall|i: int| 0 <= i < s.len() ==> is_alphanumeric(#[trigger] s[i]) || s[i] == '-'
}

/// Whether `s` can stand in a file name as it is: it is plain, and neither
/// begins nor ends with a dash.
pub open spec fn is_slug(s: Text) -> bool {
    is_plain(s) && (s.len() > 0 ==> s[0] != '-' && s.last() != '-')
}

/// What stands behind the name of an account in its endpoint.
pub const ACCOUNT_DOMAIN: &'static str = ".documents.azure.com:443/";

/// The endpoint of the account `name`.
pub open spec fn endpoint_of(name: Text) -> Text {
    "https://"@ + name + ACCOUNT_DOMAIN@
}

/// Whether `endpoint` is that of an account with a plain name.
pub open spec fn is_account_endpoint(endpoint: Text) -> bool {
    exists|name: Text| is_plain(name) && endpoint == #[trigger] endpoint_of(name)
}

/// The number of a character.
pub open spec fn code_point(c: char) -> nat {
    c as nat
}

fn find_code_point(c: char) -> (n: u32)
    ensures
        n == code_point(c),
{
    c as u32
}

proof fn code_points_tell_apart(a: char, b: char)
    requires
        code_point(a) == code_point(b),
    ensures
        a == b,
{
}

/// The numbers of those characters of `s` that are no letters or digits.
pub open spec fn codes_of(s: Text) -> Seq<Text>
    decreases s.len(),
{
    if s.len() == 0 {
        Seq::empty()
    } else if is_alphanumeric(s.last()) {
        codes_of(s.drop_last())
    } else {
        codes_of(s.drop_last()).push(decimal(code_point(s.last())))
    }
}

/// All of `codes`, a dash in front of each.
pub open spec fn listed(codes: Seq<Text>) -> Text
    decreases codes.len(),
{
    if codes.len() == 0 {
        Seq::empty()
    } else {
        listed(codes.drop_last()) + "-"@ + codes.last()
    }
}

/// The name of an endpoint's file, without its ending. What can stand there as
/// it is does. An account's endpoint has dashes where it is no letter or digit,
/// and nothing for the slash at its end. Any other text is marked, and what the
/// dashes stand for is listed behind it.
pub open spec fn slug_of(endpoint: Text) -> Text {
    if is_slug(endpoint) {
        endpoint
    } else if is_account_endpoint(endpoint) {
        dashed(endpoint).drop_last()
    } else {
        "at-"@ + dashed(endpoint) + listed(codes_of(endpoint))
    }
}

fn alphanumeric(c: char) -> (r: bool)
    ensures
        r == is_alphanumeric(c),
{
    ('0' <= c && c <= '9') || ('a' <= c && c <= 'z') || ('A' <= c && c <= 'Z')
}

fn all_plain(x: &Vec<char>) -> (r: bool)
    ensures
        r == is_plain(x@),
{
    let mut i: usize = 0;
    while i < x.len()
        invariant
            i <= x@.len(),
            forall|k: int| 0 <= k < i ==> is_alphanumeric(#[trigger] x@[k]) || x@[k] == '-',
        decreases x.len() - i,
    {
        if !alphanumeric(x[i]) && x[i] != '-' {
            assert(!(is_alphanumeric(x@[i as int]) || x@[i as int] == '-'));
            return false;
        }
        i = i + 1;
    }
    true
}

fn of_account(endpoint: &str) -> (r: bool)
    ensures
        r == is_account_endpoint(endpoint@),
{
    let x = chars_of(endpoint);
    proof {
        reveal_strlit("https://");
        reveal_strlit(".documents.azure.com:443/");
        assert forall|name: Text| endpoint@ == #[trigger] endpoint_of(name) implies x@.len() >= 33
            && name =~= x@.subrange(8, x@.len() - 25) by {
            assert forall|i: int| 0 <= i < name.len() implies name[i] == x@[8 + i] by {
                assert(endpoint_of(name)[8 + i] == name[i]);
            }
        }
    }
    if x.len() < 33 {
        return false;
    }
    let name = text_of(&x, 8, x.len() - 25);
    let front = concat("https://", name.as_str());
    let whole = concat(front.as_str(), ACCOUNT_DOMAIN);
    assert(whole@ == endpoint_of(name@));
    let y = chars_of(name.as_str());
    all_plain(&y) && same(whole.as_str(), endpoint)
}

fn fold(x: &Vec<char>) -> (y: Vec<char>)
    ensures
        y@ == dashed(x@),
{
    let mut y: Vec<char> = Vec::new();
    let mut i: usize = 0;
    while i < x.len()
        invariant
            i <= x@.len(),
            y@ == dashed(x@).take(i as int),
        decreases x.len() - i,
    {
        let c = x[i];
        y.push(
            if alphanumeric(c) {
                c
            } else {
                '-'
            },
        );
        assert(y@ =~= dashed(x@).take(i + 1));
        i = i + 1;
    }
    assert(y@ =~= dashed(x@));
    y
}

fn list_codes(x: &Vec<char>) -> (out: String)
    ensures
        out@ == listed(codes_of(x@)),
{
    let mut out = String::new();
    let mut i: usize = 0;
    assert(out@ =~= listed(codes_of(x@.take(0))));
    while i < x.len()
        invariant
            i <= x@.len(),
            out@ == listed(codes_of(x@.take(i as int))),
        decreases x.len() - i,
    {
        let ghost early = codes_of(x@.take(i as int));
        assert(x@.take(i + 1).drop_last() =~= x@.take(i as int));
        if !alphanumeric(x[i]) {
            let code = number(find_code_point(x[i]) as u64);
            assert(early.push(code@).drop_last() =~= early);
            let marked = concat(out.as_str(), "-");
            out = concat(marked.as_str(), code.as_str());
        }
        i = i + 1;
    }
    assert(x@.take(i as int) =~= x@);
    out
}

/// Endpoints are addresses; flattens one to something safe for a file name
/// while staying recognisable when someone looks in the directory. Two different
/// addresses never collide.
pub fn slug(endpoint: &str) -> (out: String)
    ensures
        out@ == slug_of(endpoint@),
{
    let x = chars_of(endpoint);
    let n = x.len();
    if all_plain(&x) && (n == 0 || (x[0] != '-' && x[n - 1] != '-')) {
        return endpoint.to_owned();
    }
    let y = fold(&x);
    if of_account(endpoint) {
        let out = text_of(&y, 0, n - 1);
        assert(out@ =~= dashed(endpoint@).drop_last());
        return out;
    }
    let whole = text_of(&y, 0, n);
    assert(whole@ =~= dashed(endpoint@));
    let marked = concat("at-", whole.as_str());
    let codes = list_codes(&x);
    concat(marked.as_str(), codes.as_str())
}

/// The name of the file that holds the last scan of an account.
pub fn file_name(endpoint: &str) -> (out: String)
    ensures
        out@ == slug_of(endpoint@) + ".json"@,
{
    let name = slug(endpoint);
    concat(name.as_str(), ".json")
}

proof fn account_slug(name: Text)
    ensures
        dashed(endpoint_of(name)).len() == name.len() + 33,
        dashed(endpoint_of(name))[0] == 'h',
        dashed(endpoint_of(name))[name.len() as int + 31] == '3',
        forall|i: int|
            0 <= i < name.len() ==> dashed(endpoint_of(name))[8 + i] == dashed(name)[i],
{
    reveal_strlit("https://");
    reveal_strlit(".documents.azure.com:443/");
    let all = endpoint_of(name);
    assert(all[0] == 'h');
    assert(all[name.len() as int + 31] == '3');
    assert forall|i: int| 0 <= i < name.len() implies dashed(all)[8 + i] == dashed(name)[i] by {
        assert(all[8 + i] == name[i]);
    }
}

proof fn codes_are_numbers(s: Text)
    ensures
        forall|i: int|
            0 <= i < codes_of(s).len() ==> (#[trigger] codes_of(s)[i]).len() > 0 && forall|k: int|
                0 <= k < codes_of(s)[i].len() ==> is_digit(#[trigger] codes_of(s)[i][k]),
    decreases s.len(),
{
    if s.len() > 0 {
        let front = s.drop_last();
        codes_are_numbers(front);
        let code = code_point(s.last());
        decimal_tells_apart(code, code);
        assert forall|i: int| 0 <= i < codes_of(s).len() implies (#[trigger] codes_of(s)[i]).len()
            > 0 && forall|k: int|
            0 <= k < codes_of(s)[i].len() ==> is_digit(#[trigger] codes_of(s)[i][k]) by {
            if i < codes_of(front).len() {
                assert(codes_of(s)[i] == codes_of(front)[i]);
            }
        }
    }
}

proof fn listed_is_safe(codes: Seq<Text>)
    requires
        forall|i: int|
            0 <= i < codes.len() ==> (#[trigger] codes[i]).len() > 0 && forall|k: int|
                0 <= k < codes[i].len() ==> is_digit(#[trigger] codes[i][k]),
    ensures
        is_plain(listed(codes)),
        codes.len() > 0 ==> listed(codes).len() > 0 && is_digit(listed(codes).last()),
    decreases codes.len(),
{
    reveal_strlit("-");
    if codes.len() > 0 {
        let front = codes.drop_last();
        assert forall|i: int| 0 <= i < front.len() implies (#[trigger] front[i]).len() > 0
            && forall|k: int| 0 <= k < front[i].len() ==> is_digit(#[trigger] front[i][k]) by {
            assert(front[i] == codes[i]);
        }
        listed_is_safe(front);
        let all = listed(codes);
        let n = listed(front).len();
        let last = codes[codes.len() - 1];
        assert(codes.last() == last);
        assert forall|i: int| 0 <= i < all.len() implies is_alphanumeric(#[trigger] all[i])
            || all[i] == '-' by {
            if i < n {
                assert(all[i] == listed(front)[i]);
            } else if i > n {
                assert(all[i] == last[i - n - 1]);
            }
        }
        assert(all.last() == last[last.len() - 1]);
    }
}

proof fn codes_are_there(s: Text)
    ensures
        codes_of(s).len() == 0 ==> forall|i: int|
            0 <= i < s.len() ==> is_alphanumeric(#[trigger] s[i]),
    decreases s.len(),
{
    if s.len() > 0 {
        let front = s.drop_last();
        codes_are_there(front);
        if codes_of(s).len() == 0 {
            assert forall|i: int| 0 <= i < s.len() implies is_alphanumeric(#[trigger] s[i]) by {
                if i < front.len() {
                    assert(front[i] == s[i]);
                }
            }
        }
    }
}

/// A file name made from an endpoint holds nothing but letters, digits and
/// dashes, and neither begins nor ends with a dash; made into a file name once
/// more, it stays as it is.
pub proof fn slug_is_safe(endpoint: Text)
    ensures
        is_slug(slug_of(endpoint)),
        slug_of(slug_of(endpoint)) == slug_of(endpoint),
{
    reveal_strlit("at-");
    let out = slug_of(endpoint);
    if is_slug(endpoint) {
    } else if is_account_endpoint(endpoint) {
        let name = choose|name: Text| is_plain(name) && endpoint == #[trigger] endpoint_of(name);
        account_slug(name);
        assert(out.last() == '3');
    } else {
        let codes = codes_of(endpoint);
        let n = endpoint.len();
        codes_are_numbers(endpoint);
        listed_is_safe(codes);
        codes_are_there(endpoint);
        assert forall|i: int| 0 <= i < out.len() implies is_alphanumeric(#[trigger] out[i])
            || out[i] == '-' by {
            if 3 <= i < 3 + n {
                assert(out[i] == dashed(endpoint)[i - 3]);
            } else if i >= 3 + n {
                assert(out[i] == listed(codes)[i - 3 - n]);
            }
        }
        assert(codes.len() > 0);
        assert(out.last() == listed(codes).last());
        assert(out[0] == 'a');
    }
}

// ── Every address has a file of its own ──────────────────────────────────

/// Whether `s` is an address: what it says stands behind a scheme.
pub open spec fn is_address(s: Text) -> bool {
    occurs(s, "://"@)
}

proof fn pieces_of_listed(base: Text, codes: Seq<Text>)
    requires
        forall|i: int|
            0 <= i < codes.len() ==> (#[trigger] codes[i]).len() > 0 && forall|k: int|
                0 <= k < codes[i].len() ==> is_digit(#[trigger] codes[i][k]),
    ensures
        pieces(base + listed(codes), '-') == pieces(base, '-') + codes,
    decreases codes.len(),
{
    reveal_strlit("-");
    if codes.len() == 0 {
        assert(base + listed(codes) =~= base);
        assert(pieces(base, '-') + codes =~= pieces(base, '-'));
    } else {
        let front = codes.drop_last();
        assert forall|i: int| 0 <= i < front.len() implies (#[trigger] front[i]).len() > 0
            && forall|k: int| 0 <= k < front[i].len() ==> is_digit(#[trigger] front[i][k]) by {
            assert(front[i] == codes[i]);
        }
        pieces_of_listed(base, front);
        let early = base + listed(front);
        let last = codes[codes.len() - 1];
        let none = Seq::<char>::empty();
        assert(early.push('-').drop_last() =~= early);
        assert(pieces(early.push('-'), '-') == pieces(early, '-').push(none));
        pieces_go_on(early.push('-'), last, '-');
        assert(base + listed(codes) =~= early.push('-') + last);
        assert(none + last =~= last);
        assert(pieces(base + listed(codes), '-') =~= pieces(base, '-') + codes);
    }
}

proof fn a_code_for_each_dash(s: Text)
    ensures
        pieces(dashed(s), '-').len() == codes_of(s).len() + 1,
    decreases s.len(),
{
    if s.len() > 0 {
        a_code_for_each_dash(s.drop_last());
        assert(dashed(s).drop_last() =~= dashed(s.drop_last()));
    }
}

proof fn dashes_and_codes_tell(a: Text, b: Text)
    requires
        dashed(a) == dashed(b),
        codes_of(a) == codes_of(b),
    ensures
        a == b,
    decreases a.len(),
{
    assert(a.len() == dashed(a).len() && b.len() == dashed(b).len());
    assert(a.len() == b.len());
    if a.len() > 0 {
        let n = a.len() - 1;
        let p = a.drop_last();
        let q = b.drop_last();
        assert(dashed(p) =~= dashed(a).drop_last());
        assert(dashed(q) =~= dashed(b).drop_last());
        assert(dashed(a)[n] == (if is_alphanumeric(a[n]) {
            a[n]
        } else {
            '-'
        }));
        assert(dashed(b)[n] == (if is_alphanumeric(b[n]) {
            b[n]
        } else {
            '-'
        }));
        if is_alphanumeric(a[n]) {
            assert(a[n] == b[n]);
        } else {
            let x = code_point(a[n]);
            let y = code_point(b[n]);
            assert(!is_alphanumeric(b[n]));
            assert(codes_of(a).last() == decimal(x) && codes_of(b).last() == decimal(y));
            decimal_tells_apart(x, y);
            code_points_tell_apart(a[n], b[n]);
            assert(codes_of(p) =~= codes_of(a).drop_last());
            assert(codes_of(q) =~= codes_of(b).drop_last());
            assert(a[n] == b[n]);
        }
        dashes_and_codes_tell(p, q);
        assert(a =~= p.push(a[n]));
        assert(b =~= q.push(b[n]));
    } else {
        assert(a =~= b);
    }
}

proof fn marked_tell_apart(a: Text, b: Text)
    requires
        "at-"@ + dashed(a) + listed(codes_of(a)) == "at-"@ + dashed(b) + listed(codes_of(b)),
    ensures
        a == b,
{
    let x = dashed(a) + listed(codes_of(a));
    let y = dashed(b) + listed(codes_of(b));
    let mark = "at-"@;
    assert((mark + dashed(a) + listed(codes_of(a))).skip(mark.len() as int) =~= x);
    assert((mark + dashed(b) + listed(codes_of(b))).skip(mark.len() as int) =~= y);
    codes_are_numbers(a);
    codes_are_numbers(b);
    pieces_of_listed(dashed(a), codes_of(a));
    pieces_of_listed(dashed(b), codes_of(b));
    a_code_for_each_dash(a);
    a_code_for_each_dash(b);
    let p = pieces(dashed(a), '-');
    let q = pieces(dashed(b), '-');
    assert((p + codes_of(a)).len() == (q + codes_of(b)).len());
    assert(p.len() == q.len());
    assert(p =~= (p + codes_of(a)).take(p.len() as int));
    assert(q =~= (q + codes_of(b)).take(q.len() as int));
    assert(codes_of(a) =~= (p + codes_of(a)).skip(p.len() as int));
    assert(codes_of(b) =~= (q + codes_of(b)).skip(q.len() as int));
    joined_undoes_pieces(dashed(a), '-');
    joined_undoes_pieces(dashed(b), '-');
    dashes_and_codes_tell(a, b);
}

/// Two different addresses never share a file.
pub proof fn endpoints_have_their_own_files(a: Text, b: Text)
    requires
        is_address(a),
        is_address(b),
        a != b,
    ensures
        slug_of(a) != slug_of(b),
        slug_of(a) + ".json"@ != slug_of(b) + ".json"@,
{
    reveal_strlit("at-");
    address_is_no_slug(a);
    address_is_no_slug(b);
    let x = slug_of(a);
    let y = slug_of(b);
    if x == y {
        if is_account_endpoint(a) && is_account_endpoint(b) {
            let m = choose|m: Text| is_plain(m) && a == #[trigger] endpoint_of(m);
            let n = choose|n: Text| is_plain(n) && b == #[trigger] endpoint_of(n);
            account_slug(m);
            account_slug(n);
            assert(x == dashed(a).drop_last() && y == dashed(b).drop_last());
            assert(dashed(a).len() == dashed(b).len()) by {
                assert(dashed(a).drop_last().len() == dashed(b).drop_last().len());
            }
            assert(m.len() == n.len());
            assert forall|i: int| 0 <= i < m.len() implies m[i] == n[i] by {
                assert(x[8 + i] == dashed(m)[i]);
                assert(y[8 + i] == dashed(n)[i]);
            }
            assert(m =~= n);
        } else if is_account_endpoint(a) {
            let m = choose|m: Text| is_plain(m) && a == #[trigger] endpoint_of(m);
            account_slug(m);
            assert(x[0] == 'h' && y[0] == 'a');
        } else if is_account_endpoint(b) {
            let n = choose|n: Text| is_plain(n) && b == #[trigger] endpoint_of(n);
            account_slug(n);
            assert(x[0] == 'a' && y[0] == 'h');
        } else {
            marked_tell_apart(a, b);
        }
    }
    let end = ".json"@;
    if x + end == y + end {
        assert((x + end).len() == (y + end).len());
        assert((x + end).take(x.len() as int) =~= x);
        assert((y + end).take(y.len() as int) =~= y);
    }
}

proof fn address_is_no_slug(s: Text)
    requires
        is_address(s),
    ensures
        !is_slug(s),
{
    reveal_strlit("://");
    let at = choose|at: int| occurs_at(s, "://"@, at);
    assert(s.subrange(at, at + 3)[0] == ':');
    assert(s[at] == ':');
}

// ── Age ──────────────────────────────────────────────────────────────────

/// Calls `chrono::Utc::now` and `timestamp` on the result: the Unix seconds
/// that the machine's clock shows. Nothing is claimed of them; contracts say only
/// that a time is what the clock showed.
#[verifier::external_body]
pub fn now() -> (out: i64) {
    chrono::Utc::now().timestamp()
}

/// How long ago something was, in words, for something at `then` when the clock
/// shows `now`. A clock that was set back makes nothing older than now.
pub open spec fn age_text(now: int, then: int) -> Text {
    let secs = if now > then {
        now - then
    } else {
        0
    };
    if secs < 60 {
        "just now"@
    } else if secs < 3600 {
        decimal((secs / 60) as nat) + "m ago"@
    } else if secs < 86_400 {
        decimal((secs / 3600) as nat) + "h ago"@
    } else {
        decimal((secs / 86_400) as nat) + "d ago"@
    }
}

/// How long ago `scanned_at` was when the clock shows `now`.
pub fn age_at(now: i64, scanned_at: i64) -> (out: String)
    ensures
        out@ == age_text(now as int, scanned_at as int),
{
    let secs: u64 = if now > scanned_at {
        (now as i128 - scanned_at as i128) as u64
    } else {
        0
    };
    if secs < 60 {
        return "just now".to_owned();
    }
    if secs < 3600 {
        let n = number(secs / 60);
        concat(n.as_str(), "m ago")
    } else if secs < 86_400 {
        let n = number(secs / 3600);
        concat(n.as_str(), "h ago")
    } else {
        let n = number(secs / 86_400);
        concat(n.as_str(), "d ago")
    }
}

/// "just now", "5m ago", "3h ago": enough to judge whether to trust a scan.
pub fn age(scanned_at: i64) -> (out: String)
    ensures
        exists|time: i64|
            call_ensures(now, (), time) && out@ == #[trigger] age_text(
                time as int,
                scanned_at as int,
            ),
{
    let time = now();
    age_at(time, scanned_at)
}

// ── What is kept ─────────────────────────────────────────────────────────

/// The scan to keep of an account with these schemas. An empty one is not kept:
/// it cannot be told from a failed one when it is read, and a cold start is
/// better than a cache that says the account is empty.
pub fn scan_to_save(schemas: Vec<ContainerSchema>, now: i64) -> (out: Option<CachedScan>)
    ensures
        out is Some <==> schemas@.len() > 0,
        out is Some ==> out->0.schemas == schemas && out->0.scanned_at == now,
{
    if schemas.len() == 0 {
        None
    } else {
        Some(CachedScan { scanned_at: now, schemas })
    }
}

/// The scan to keep of an account with these schemas, made just now.
pub fn save(schemas: Vec<ContainerSchema>) -> (out: Option<CachedScan>)
    ensures
        out is Some <==> schemas@.len() > 0,
        out is Some ==> out->0.schemas == schemas && call_ensures(now, (), out->0.scanned_at),
{
    let time = now();
    scan_to_save(schemas, time)
}

/// An age is told in the largest unit of which it holds at least one: whole
/// minutes, hours or days; less than a minute is just now, and so is what lies
/// ahead.
pub proof fn ages_are_told_in_their_unit(now: int, then: int, n: nat)
    ensures
        now - then < 60 ==> age_text(now, then) == "just now"@,
        60 <= now - then < 60 * 60 && 60 * n <= now - then < 60 * (n + 1) ==> age_text(now, then)
            == decimal(n) + "m ago"@,
        60 * 60 <= now - then < 24 * 60 * 60 && 3600 * n <= now - then < 3600 * (n + 1)
            ==> age_text(now, then) == decimal(n) + "h ago"@,
        24 * 60 * 60 <= now - then && 86_400 * n <= now - then < 86_400 * (n + 1)
            ==> age_text(now, then) == decimal(n) + "d ago"@,
{
}

/// The file of an account is called by its endpoint, so that it can be told in
/// the directory: its name stands there as it is, between dashes for the rest.
pub proof fn accounts_are_told_by_their_file(name: Text)
    requires
        is_plain(name),
    ensures
        slug_of("https://"@ + name + ".documents.azure.com:443/"@) == "https---"@ + name
            + "-documents-azure-com-443"@,
{
    reveal_strlit("https://");
    reveal_strlit(".documents.azure.com:443/");
    reveal_strlit("https---");
    reveal_strlit("-documents-azure-com-443");
    let whole = endpoint_of(name);
    let want = "https---"@ + name + "-documents-azure-com-443"@;
    let out = dashed(whole).drop_last();
    assert(whole == "https://"@ + name + ".documents.azure.com:443/"@);
    assert(whole[5] == ':');
    assert(!is_plain(whole)) by {
        if is_plain(whole) {
            assert(is_alphanumeric(whole[5]) || whole[5] == '-');
        }
    }
    assert(is_account_endpoint(whole));
    assert forall|i: int| 0 <= i < want.len() implies out[i] == want[i] by {
        if 8 <= i < 8 + name.len() {
            assert(whole[i] == name[i - 8]);
        } else if i >= 8 + name.len() {
            assert(whole[i] == ".documents.azure.com:443/"@[i - 8 - name.len()]);
        }
    }
    assert(out =~= want);
}

} // verus!
