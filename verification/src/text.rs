//! Text as sequences of characters: the vocabulary that every contract of the
//! library is written in, and the executable functions that meet it.

use vstd::prelude::*;

verus! {

/// A piece of text, as contracts speak of it.
pub type Text = Seq<char>;

/// `String::push` adds one character at the end and leaves the rest alone.
pub assume_specification[ String::push ](s: &mut String, c: char)
    ensures
        final(s)@ == old(s)@.push(c),
;

/// The characters of `s`, one by one.
pub fn chars_of(s: &str) -> (out: Vec<char>)
    ensures
        out@ == s@,
{
    let mut out: Vec<char> = Vec::new();
    for c in it: s.chars()
        invariant
            it.seq() == s@,
            out@ == s@.take(it.index()),
    {
        out.push(c);
        assert(s@.take(it.index() + 1) =~= s@.take(it.index()).push(c));
    }
    assert(s@.take(s@.len() as int) =~= s@);
    out
}

/// The text made of the characters `from..to` of `chars`.
pub fn text_of(chars: &Vec<char>, from: usize, to: usize) -> (out: String)
    requires
        from <= to <= chars@.len(),
    ensures
        out@ == chars@.subrange(from as int, to as int),
{
    let mut out = String::new();
    let mut i: usize = from;
    while i < to
        invariant
            from <= i <= to <= chars@.len(),
            out@ == chars@.subrange(from as int, i as int),
        decreases to - i,
    {
        out.push(chars[i]);
        assert(chars@.subrange(from as int, i + 1) =~= chars@.subrange(from as int, i as int).push(
            chars@[i as int],
        ));
        i = i + 1;
    }
    out
}

/// The text `s` with the text `t` put behind it.
pub fn concat(s: &str, t: &str) -> (out: String)
    ensures
        out@ == s@ + t@,
{
    let mut out = s.to_owned();
    out.append(t);
    out
}

/// Whether two texts are the same, character by character.
pub fn same(a: &str, b: &str) -> (r: bool)
    ensures
        r == (a@ == b@),
{
    a.to_owned() == b.to_owned()
}

/// How many bytes `s` takes up in UTF-8.
pub open spec fn byte_length(s: Text) -> nat {
    vstd::utf8::encode_utf8(s).len()
}

/// The length of `s` in bytes.
pub fn byte_len(s: &str) -> (n: usize)
    ensures
        n == byte_length(s@),
{
    s.as_bytes().len()
}

// ── Order ────────────────────────────────────────────────────────────────

/// Whether `a` stands strictly before `b` when texts are compared character
/// by character, by code point, a prefix before what extends it.
pub open spec fn precedes(a: Text, b: Text) -> bool
    decreases a.len(),
{
    if b.len() == 0 {
        false
    } else if a.len() == 0 {
        true
    } else if a[0] != b[0] {
        a[0] < b[0]
    } else {
        precedes(a.drop_first(), b.drop_first())
    }
}

/// No text stands before itself.
pub proof fn precedes_is_irreflexive(a: Text)
    ensures
        !precedes(a, a),
    decreases a.len(),
{
    if a.len() > 0 {
        precedes_is_irreflexive(a.drop_first());
    }
}

/// What stands before something that stands before `c` stands before `c`.
pub proof fn precedes_is_transitive(a: Text, b: Text, c: Text)
    requires
        precedes(a, b),
        precedes(b, c),
    ensures
        precedes(a, c),
    decreases a.len(),
{
    if a.len() > 0 && b.len() > 0 && c.len() > 0 && a[0] == b[0] && b[0] == c[0] {
        precedes_is_transitive(a.drop_first(), b.drop_first(), c.drop_first());
    }
}

/// Of two different texts, one stands before the other.
pub proof fn precedes_is_total(a: Text, b: Text)
    ensures
        a == b || precedes(a, b) || precedes(b, a),
    decreases a.len(),
{
    if a.len() > 0 && b.len() > 0 {
        if a[0] == b[0] {
            precedes_is_total(a.drop_first(), b.drop_first());
            if a.drop_first() == b.drop_first() {
                assert(a =~= seq![a[0]] + a.drop_first());
                assert(b =~= seq![b[0]] + b.drop_first());
            }
        }
    } else if a.len() == 0 && b.len() == 0 {
        assert(a =~= b);
    }
}

/// What does not come before `b`, and `b` before `c`, leaves the first not
/// before the last.
pub proof fn names_in_turn(a: Text, b: Text, c: Text)
    ensures
        !precedes(a, b) && !precedes(b, c) ==> !precedes(a, c),
        precedes(a, b) ==> !precedes(b, a),
{
    if precedes(a, b) && precedes(b, a) {
        precedes_is_transitive(a, b, a);
        precedes_is_irreflexive(a);
    }
    if !precedes(a, b) && !precedes(b, c) && precedes(a, c) {
        precedes_is_total(a, b);
        precedes_is_total(b, c);
        if b != a && b != c {
            precedes_is_transitive(c, b, a);
            precedes_is_transitive(a, c, a);
        }
        precedes_is_irreflexive(a);
    }
}

/// Whether `a` stands strictly before `b`.
pub fn is_before(a: &str, b: &str) -> (r: bool)
    ensures
        r == precedes(a@, b@),
{
    let x = chars_of(a);
    let y = chars_of(b);
    let mut i: usize = 0;
    assert(x@.skip(0) =~= x@);
    assert(y@.skip(0) =~= y@);
    while i < x.len() && i < y.len()
        invariant
            x@ == a@,
            y@ == b@,
            i <= x@.len(),
            i <= y@.len(),
            precedes(a@, b@) == precedes(x@.skip(i as int), y@.skip(i as int)),
        decreases x.len() - i,
    {
        assert(x@.skip(i as int)[0] == x@[i as int]);
        assert(y@.skip(i as int)[0] == y@[i as int]);
        assert(x@.skip(i as int).drop_first() =~= x@.skip(i + 1));
        assert(y@.skip(i as int).drop_first() =~= y@.skip(i + 1));
        if x[i] != y[i] {
            return x[i] < y[i];
        }
        i = i + 1;
    }
    i < y.len()
}

// ── Case ─────────────────────────────────────────────────────────────────

/// The character with the letters A to Z turned into a to z.
pub open spec fn ascii_lower(c: char) -> char {
    if 'A' <= c <= 'Z' {
        (c as u32 + 32) as char
    } else {
        c
    }
}

/// `s` with the letters A to Z turned into a to z.
pub open spec fn ascii_lowered(s: Text) -> Text {
    s.map_values(|c: char| ascii_lower(c))
}

/// Whether `s` holds ASCII characters only.
pub open spec fn is_ascii(s: Text) -> bool {
    forall|i: int| 0 <= i < s.len() ==> #[trigger] s[i] <= '\u{7f}'
}

/// What `str::to_lowercase` makes of a text.
pub uninterp spec fn lowercase(s: Text) -> Text;

/// A text in lower case: the letters A to Z as a to z where there are ASCII
/// characters only, and the Unicode mapping otherwise.
pub open spec fn lowered(s: Text) -> Text {
    if is_ascii(s) {
        ascii_lowered(s)
    } else {
        lowercase(s)
    }
}

/// Calls `str::to_lowercase`, the Unicode lowercase mapping. Of its result the
/// contract says that it depends on the text alone, and that on a text of ASCII
/// characters only the letters A to Z change, each to its small letter.
#[verifier::external_body]
pub(crate) fn to_lower(s: &str) -> (out: String)
    ensures
        out@ == (if is_ascii(s@) {
            ascii_lowered(s@)
        } else {
            lowercase(s@)
        }),
{
    s.to_lowercase()
}

/// Whether two texts are the same once the letters A to Z are read as a to z.
pub fn same_ignoring_case(a: &str, b: &str) -> (r: bool)
    ensures
        r == (ascii_lowered(a@) == ascii_lowered(b@)),
{
    let x = chars_of(a);
    let y = chars_of(b);
    let ghost la = ascii_lowered(a@);
    let ghost lb = ascii_lowered(b@);
    if x.len() != y.len() {
        assert(la.len() != lb.len());
        return false;
    }
    let mut i: usize = 0;
    while i < x.len()
        invariant
            x@ == a@,
            y@ == b@,
            x@.len() == y@.len(),
            i <= x@.len(),
            la == ascii_lowered(a@),
            lb == ascii_lowered(b@),
            forall|j: int| 0 <= j < i ==> la[j] == lb[j],
        decreases x.len() - i,
    {
        if lower_char(x[i]) != lower_char(y[i]) {
            assert(la[i as int] != lb[i as int]);
            return false;
        }
        i = i + 1;
    }
    assert(la =~= lb);
    true
}

fn lower_char(c: char) -> (r: char)
    ensures
        r == ascii_lower(c),
{
    if 'A' <= c && c <= 'Z' {
        ((c as u8) + 32) as char
    } else {
        c
    }
}

// ── Searching ────────────────────────────────────────────────────────────

/// Whether `part` stands in `s` from position `at` on.
pub open spec fn occurs_at(s: Text, part: Text, at: int) -> bool {
    &&& 0 <= at
    &&& at + part.len() <= s.len()
    &&& s.subrange(at, at + part.len()) == part
}

/// Whether `part` stands anywhere in `s`.
pub open spec fn occurs(s: Text, part: Text) -> bool {
    exists|at: int| occurs_at(s, part, at)
}

fn part_at(s: &Vec<char>, part: &Vec<char>, at: usize) -> (r: bool)
    ensures
        r == occurs_at(s@, part@, at as int),
{
    if s.len() < part.len() || s.len() - part.len() < at {
        return false;
    }
    let mut k: usize = 0;
    while k < part.len()
        invariant
            k <= part@.len(),
            at + part@.len() <= s.len(),
            forall|j: int| 0 <= j < k ==> s@[at + j] == part@[j],
        decreases part.len() - k,
    {
        if s[at + k] != part[k] {
            assert(s@.subrange(at as int, at + part@.len())[k as int] != part@[k as int]);
            return false;
        }
        k = k + 1;
    }
    assert(s@.subrange(at as int, at + part@.len()) =~= part@);
    true
}

/// Whether `part` stands anywhere in `s`.
pub fn contains(s: &str, part: &str) -> (r: bool)
    ensures
        r == occurs(s@, part@),
{
    let x = chars_of(s);
    let y = chars_of(part);
    if x.len() < y.len() {
        return false;
    }
    let last: usize = x.len() - y.len();
    let mut at: usize = 0;
    while at < last
        invariant
            x@ == s@,
            y@ == part@,
            last == x@.len() - y@.len(),
            at <= last,
            forall|j: int| 0 <= j < at ==> !occurs_at(s@, part@, j),
        decreases last - at,
    {
        if part_at(&x, &y, at) {
            return true;
        }
        at = at + 1;
    }
    part_at(&x, &y, last)
}

/// Whether `s` begins with `part`.
pub fn starts_with(s: &str, part: &str) -> (r: bool)
    ensures
        r == occurs_at(s@, part@, 0),
{
    part_at(&chars_of(s), &chars_of(part), 0)
}

/// Whether some item of `list` is the text `s`.
pub fn is_listed(list: &Vec<String>, s: &str) -> (r: bool)
    ensures
        r == list.deep_view().contains(s@),
{
    let mut i: usize = 0;
    while i < list.len()
        invariant
            i <= list@.len(),
            forall|j: int| 0 <= j < i ==> list@[j]@ != s@,
        decreases list.len() - i,
    {
        if same(list[i].as_str(), s) {
            assert(list.deep_view()[i as int] == s@);
            return true;
        }
        i = i + 1;
    }
    assert forall|j: int| 0 <= j < list.deep_view().len() implies list.deep_view()[j] != s@ by {
        assert(list.deep_view()[j] == list@[j]@);
    }
    false
}

/// A copy of `list`.
pub fn copies(list: &Vec<String>) -> (out: Vec<String>)
    ensures
        out.deep_view() == list.deep_view(),
{
    let mut out: Vec<String> = Vec::new();
    let mut i: usize = 0;
    while i < list.len()
        invariant
            i <= list@.len(),
            out@.len() == i,
            forall|j: int| 0 <= j < i ==> (#[trigger] out@[j])@ == list@[j]@,
        decreases list.len() - i,
    {
        out.push(list[i].clone());
        i = i + 1;
    }
    assert(out.deep_view() =~= list.deep_view());
    out
}

// ── White space ──────────────────────────────────────────────────────────

/// The characters with the Unicode property `White_Space`.
pub open spec fn is_space(c: char) -> bool {
    ||| '\u{9}' <= c <= '\u{d}'
    ||| c == ' '
    ||| c == '\u{85}'
    ||| c == '\u{a0}'
    ||| c == '\u{1680}'
    ||| '\u{2000}' <= c <= '\u{200a}'
    ||| '\u{2028}' <= c <= '\u{2029}'
    ||| c == '\u{202f}'
    ||| c == '\u{205f}'
    ||| c == '\u{3000}'
}

fn space(c: char) -> (r: bool)
    ensures
        r == is_space(c),
{
    ('\u{9}' <= c && c <= '\u{d}') || c == ' ' || c == '\u{85}' || c == '\u{a0}' || c == '\u{1680}'
        || ('\u{2000}' <= c && c <= '\u{200a}') || ('\u{2028}' <= c && c <= '\u{2029}') || c == '\u{202f}'
        || c == '\u{205f}' || c == '\u{3000}'
}

/// `s` without the white space it begins with.
pub open spec fn trimmed_start(s: Text) -> Text
    decreases s.len(),
{
    if s.len() > 0 && is_space(s[0]) {
        trimmed_start(s.drop_first())
    } else {
        s
    }
}

/// `s` without the white space it ends with.
pub open spec fn trimmed_end(s: Text) -> Text
    decreases s.len(),
{
    if s.len() > 0 && is_space(s.last()) {
        trimmed_end(s.drop_last())
    } else {
        s
    }
}

/// `s` without the white space around it.
pub open spec fn trimmed(s: Text) -> Text {
    trimmed_end(trimmed_start(s))
}

/// `s` without the white space around it.
pub fn trim(s: &str) -> (out: String)
    ensures
        out@ == trimmed(s@),
{
    let x = chars_of(s);
    let mut from: usize = 0;
    assert(x@.skip(0) =~= x@);
    while from < x.len() && space(x[from])
        invariant
            x@ == s@,
            from <= x@.len(),
            trimmed_start(s@) == trimmed_start(x@.skip(from as int)),
        decreases x.len() - from,
    {
        assert(x@.skip(from as int).drop_first() =~= x@.skip(from + 1));
        from = from + 1;
    }
    assert(trimmed_start(s@) =~= x@.skip(from as int));
    let mut to: usize = x.len();
    assert(x@.subrange(from as int, to as int) =~= x@.skip(from as int));
    while from < to && space(x[to - 1])
        invariant
            x@ == s@,
            from <= to <= x@.len(),
            trimmed_start(s@) == x@.skip(from as int),
            trimmed(s@) == trimmed_end(x@.subrange(from as int, to as int)),
        decreases to - from,
    {
        assert(x@.subrange(from as int, to as int).last() == x@[to - 1]);
        assert(x@.subrange(from as int, to as int).drop_last() =~= x@.subrange(
            from as int,
            to - 1,
        ));
        to = to - 1;
    }
    if from < to {
        assert(x@.subrange(from as int, to as int).last() == x@[to - 1]);
    }
    text_of(&x, from, to)
}

proof fn trimmed_start_is_rest(s: Text)
    ensures
        ({
            let t = trimmed_start(s);
            &&& t.len() <= s.len()
            &&& t == s.skip(s.len() - t.len())
            &&& t.len() > 0 ==> !is_space(t[0])
        }),
    decreases s.len(),
{
    let t = trimmed_start(s);
    if s.len() > 0 && is_space(s[0]) {
        trimmed_start_is_rest(s.drop_first());
        assert(s.drop_first().skip(s.len() - 1 - t.len()) =~= s.skip(s.len() - t.len()));
    } else {
        assert(s.skip(0) =~= s);
    }
}

proof fn trimmed_end_is_front(s: Text)
    ensures
        ({
            let t = trimmed_end(s);
            &&& t.len() <= s.len()
            &&& t == s.take(t.len() as int)
            &&& t.len() > 0 ==> !is_space(t.last())
            &&& forall|i: int| t.len() <= i < s.len() ==> is_space(#[trigger] s[i])
        }),
    decreases s.len(),
{
    let t = trimmed_end(s);
    if s.len() > 0 && is_space(s.last()) {
        let front = s.drop_last();
        trimmed_end_is_front(front);
        assert(front.take(t.len() as int) =~= s.take(t.len() as int));
        assert forall|i: int| t.len() <= i < s.len() implies is_space(#[trigger] s[i]) by {
            if i < front.len() {
                assert(front[i] == s[i]);
            }
        }
    } else {
        assert(s.take(s.len() as int) =~= s);
    }
}

/// Text without white space at its beginning is trimmed at its end, where it
/// keeps at least one character: the one it begins with.
proof fn trimmed_when_started(s: Text)
    requires
        s.len() > 0,
        !is_space(s[0]),
    ensures
        trimmed(s) == trimmed_end(s),
        trimmed(s).len() > 0,
{
    trimmed_end_is_front(s);
    if trimmed_end(s).len() == 0 {
        assert(is_space(s[0]));
    }
}

/// Trimming is done once: there is no white space around what is left.
pub proof fn trimmed_again(s: Text)
    ensures
        trimmed(trimmed(s)) == trimmed(s),
{
    let u = trimmed_start(s);
    let t = trimmed(s);
    trimmed_start_is_rest(s);
    trimmed_end_is_front(u);
    if t.len() > 0 {
        assert(t[0] == u[0]);
    }
}

/// What occurs in a trimmed text occurs in the text.
pub proof fn trimmed_adds_nothing(s: Text, part: Text)
    ensures
        occurs(trimmed(s), part) ==> occurs(s, part),
{
    let u = trimmed_start(s);
    let t = trimmed(s);
    let lo = s.len() - u.len();
    trimmed_start_is_rest(s);
    trimmed_end_is_front(u);
    if occurs(t, part) {
        let at = choose|at: int| occurs_at(t, part, at);
        assert(s.subrange(lo + at, lo + at + part.len()) =~= t.subrange(at, at + part.len()));
        assert(occurs_at(s, part, lo + at));
    }
}

proof fn trimmed_start_goes_on(s: Text, t: Text)
    requires
        trimmed_start(s).len() > 0,
    ensures
        trimmed_start(s + t) == trimmed_start(s) + t,
    decreases s.len(),
{
    if is_space(s[0]) {
        assert((s + t).drop_first() =~= s.drop_first() + t);
        trimmed_start_goes_on(s.drop_first(), t);
    }
}

proof fn trimmed_end_at(s: Text, n: int)
    requires
        0 < n <= s.len(),
        !is_space(s[n - 1]),
        forall|i: int| n <= i < s.len() ==> is_space(#[trigger] s[i]),
    ensures
        trimmed_end(s) == s.take(n),
{
    let t = trimmed_end(s);
    trimmed_end_is_front(s);
    if t.len() < n {
        assert(is_space(s[n - 1]));
    } else if t.len() > n {
        assert(t.last() == s[t.len() - 1]);
    }
}

/// How many characters of `s` stand in front of the first separator.
pub open spec fn first_length(s: Text, sep: char) -> nat
    decreases s.len(),
{
    if s.len() == 0 || s[0] == sep {
        0
    } else {
        first_length(s.drop_first(), sep) + 1
    }
}

proof fn first_length_at(s: Text, sep: char)
    ensures
        ({
            let n = first_length(s, sep) as int;
            &&& n <= s.len()
            &&& n < s.len() ==> s[n] == sep
            &&& forall|i: int| 0 <= i < n ==> #[trigger] s[i] != sep
        }),
    decreases s.len(),
{
    if s.len() > 0 && s[0] != sep {
        let rest = s.drop_first();
        first_length_at(rest, sep);
        assert forall|i: int| 0 <= i < first_length(s, sep) implies #[trigger] s[i] != sep by {
            if i > 0 {
                assert(rest[i - 1] == s[i]);
            }
        }
    }
}

proof fn first_piece(s: Text, sep: char, n: int)
    requires
        0 <= n <= s.len(),
        n < s.len() ==> s[n] == sep,
        forall|i: int| 0 <= i < n ==> #[trigger] s[i] != sep,
    ensures
        pieces(s, sep)[0] == s.take(n),
        n == s.len() ==> pieces(s, sep).len() == 1,
        n < s.len() ==> pieces(s, sep).len() > 1,
    decreases s.len(),
{
    if s.len() == 0 {
        assert(s.take(0) =~= Seq::<char>::empty());
    } else {
        let front = s.drop_last();
        if n == s.len() {
            first_piece(front, sep, n - 1);
            assert(s[n - 1] != sep);
            assert(front.take(n - 1).push(s.last()) =~= s.take(n));
        } else {
            first_piece(front, sep, n);
            assert(front.take(n) =~= s.take(n));
        }
    }
}

/// The first line of `s`, trimmed.
proof fn first_line_is_trimmed(s: Text, n: int)
    requires
        s.len() > 0,
        !is_space(s[0]),
        0 <= n <= s.len(),
        n < s.len() ==> s[n] == '\n',
        forall|i: int| 0 <= i < n ==> #[trigger] s[i] != '\n',
    ensures
        trimmed(pieces(trimmed(s), '\n')[0]) == trimmed(s.take(n)),
        trimmed(s.take(n)).len() > 0,
        pieces(trimmed(s), '\n').len() > 0,
{
    let t = trimmed(s);
    let m = t.len() as int;
    let line = s.take(n);
    trimmed_when_started(s);
    trimmed_end_is_front(s);
    assert(n > 0) by {
        if n == 0 {
            assert(is_space(s[0]));
        }
    }
    assert(line[0] == s[0]);
    trimmed_when_started(line);
    if n < m {
        first_piece(t, '\n', n);
        assert(t.take(n) =~= line);
    } else {
        first_piece(t, '\n', m);
        assert(t.take(m) =~= t);
        assert(line[m - 1] == s[m - 1]);
        assert(t.last() == s[m - 1]);
        assert forall|i: int| m <= i < line.len() implies is_space(#[trigger] line[i]) by {
            assert(line[i] == s[i]);
        }
        trimmed_end_at(line, m);
        assert(line.take(m) =~= t);
        trimmed_again(s);
    }
}

/// Whatever follows a text behind a line break leaves its first line alone.
pub proof fn first_line_stays(s: Text, more: Text)
    requires
        trimmed(s).len() > 0,
    ensures
        ({
            let a = pieces(trimmed(s), '\n');
            let b = pieces(trimmed(s + "\n"@ + more), '\n');
            &&& a.len() > 0
            &&& b.len() > 0
            &&& trimmed(a[0]).len() > 0
            &&& trimmed(a[0]) == trimmed(b[0])
        }),
{
    reveal_strlit("\n");
    let rest = "\n"@ + more;
    let u = trimmed_start(s);
    let v = u + rest;
    trimmed_start_is_rest(s);
    trimmed_end_is_front(u);
    assert(s + "\n"@ + more =~= s + rest);
    trimmed_start_goes_on(s, rest);
    assert(trimmed_start(u) == u);
    assert(trimmed_start(v) == v);
    let n = first_length(u, '\n') as int;
    first_length_at(u, '\n');
    first_line_is_trimmed(u, n);
    assert(rest[0] == '\n');
    assert forall|i: int| 0 <= i < n implies #[trigger] v[i] != '\n' by {
        assert(v[i] == u[i]);
    }
    first_line_is_trimmed(v, n);
    assert(u.take(n) =~= v.take(n));
}

// ── Taking apart and putting together ────────────────────────────────────

/// The pieces of `s` between the separators `sep`: always at least one.
pub open spec fn pieces(s: Text, sep: char) -> Seq<Text>
    decreases s.len(),
{
    if s.len() == 0 {
        seq![Seq::empty()]
    } else {
        let before = pieces(s.drop_last(), sep);
        if s.last() == sep {
            before.push(Seq::empty())
        } else {
            before.update(before.len() - 1, before.last().push(s.last()))
        }
    }
}

/// There is always a piece.
pub proof fn pieces_is_never_empty(s: Text, sep: char)
    ensures
        pieces(s, sep).len() > 0,
    decreases s.len(),
{
    if s.len() > 0 {
        pieces_is_never_empty(s.drop_last(), sep);
    }
}

/// `s` cut at every `sep`.
pub fn split(s: &str, sep: char) -> (out: Vec<String>)
    ensures
        out.deep_view() == pieces(s@, sep),
{
    let x = chars_of(s);
    let mut out: Vec<String> = Vec::new();
    let mut current = String::new();
    let mut i: usize = 0;
    assert(out.deep_view().push(current@) =~= pieces(x@.take(0), sep));
    while i < x.len()
        invariant
            x@ == s@,
            i <= x@.len(),
            out.deep_view().push(current@) == pieces(x@.take(i as int), sep),
        decreases x.len() - i,
    {
        let ghost before = out.deep_view();
        assert(x@.take(i + 1).drop_last() =~= x@.take(i as int));
        if x[i] == sep {
            let ghost done = current@;
            out.push(current);
            current = String::new();
            assert(out.deep_view() =~= before.push(done));
            assert(out.deep_view().push(current@) =~= pieces(x@.take(i + 1), sep));
        } else {
            let ghost done = current@;
            current.push(x[i]);
            assert(before.push(done).update(before.len() as int, done.push(x@[i as int])) =~= before.push(
                current@,
            ));
        }
        i = i + 1;
    }
    assert(x@.take(i as int) =~= s@);
    let ghost before = out.deep_view();
    let ghost done = current@;
    out.push(current);
    assert(out.deep_view() =~= before.push(done));
    out
}

/// What stands in front of the first `sep` of `s`, and what stands behind it.
pub open spec fn cut(s: Text, sep: char) -> Option<(Text, Text)>
    decreases s.len(),
{
    if s.len() == 0 {
        None
    } else if s[0] == sep {
        Some((Seq::empty(), s.drop_first()))
    } else {
        match cut(s.drop_first(), sep) {
            Some((front, back)) => Some((seq![s[0]] + front, back)),
            None => None,
        }
    }
}

pub(crate) proof fn cut_at(s: Text, sep: char, at: int)
    requires
        0 <= at <= s.len(),
        forall|j: int| 0 <= j < at ==> s[j] != sep,
        at < s.len() ==> s[at] == sep,
    ensures
        cut(s, sep) == (if at < s.len() {
            Some((s.take(at), s.skip(at + 1)))
        } else {
            None
        }),
    decreases s.len(),
{
    if at == 0 {
        if s.len() > 0 {
            assert(s.take(0) =~= Seq::<char>::empty());
            assert(s.skip(1) =~= s.drop_first());
        }
    } else {
        let rest = s.drop_first();
        assert forall|j: int| 0 <= j < at - 1 implies rest[j] != sep by {
            assert(rest[j] == s[j + 1]);
        }
        cut_at(rest, sep, at - 1);
        assert(s[0] != sep);
        if at < s.len() {
            assert(seq![s[0]] + rest.take(at - 1) =~= s.take(at));
            assert(rest.skip(at) =~= s.skip(at + 1));
        }
    }
}

/// Splits `s` at the first `sep`.
pub fn split_once(s: &str, sep: char) -> (out: Option<(String, String)>)
    ensures
        out.deep_view() == cut(s@, sep),
{
    let x = chars_of(s);
    let mut i: usize = 0;
    while i < x.len()
        invariant
            x@ == s@,
            i <= x@.len(),
            forall|j: int| 0 <= j < i ==> x@[j] != sep,
        decreases x.len() - i,
    {
        if x[i] == sep {
            proof {
                cut_at(s@, sep, i as int);
            }
            let front = text_of(&x, 0, i);
            let back = text_of(&x, i + 1, x.len());
            assert(front@ =~= s@.take(i as int));
            assert(back@ =~= s@.skip(i + 1));
            return Some((front, back));
        }
        i = i + 1;
    }
    proof {
        cut_at(s@, sep, i as int);
    }
    None
}

/// The texts of `parts` in order, `sep` between any two.
pub open spec fn joined(parts: Seq<Text>, sep: Text) -> Text
    decreases parts.len(),
{
    if parts.len() == 0 {
        Seq::empty()
    } else if parts.len() == 1 {
        parts[0]
    } else {
        joined(parts.drop_last(), sep) + sep + parts.last()
    }
}

/// A text without separators goes on the last piece.
pub(crate) proof fn pieces_go_on(s: Text, t: Text, sep: char)
    requires
        forall|k: int| 0 <= k < t.len() ==> t[k] != sep,
    ensures
        pieces(s + t, sep) == pieces(s, sep).update(
            pieces(s, sep).len() - 1,
            pieces(s, sep).last() + t,
        ),
    decreases t.len(),
{
    let before = pieces(s, sep);
    pieces_is_never_empty(s, sep);
    if t.len() == 0 {
        assert(s + t =~= s);
        assert(before.last() + t =~= before.last());
        assert(before.update(before.len() - 1, before.last()) =~= before);
    } else {
        let front = t.drop_last();
        pieces_go_on(s, front, sep);
        assert((s + t).drop_last() =~= s + front);
        assert((s + t).last() == t.last());
        assert((before.last() + front).push(t.last()) =~= before.last() + t);
        assert(pieces(s + t, sep) =~= before.update(before.len() - 1, before.last() + t));
    }
}

/// The pieces of a text, joined again, are that text.
pub proof fn joined_undoes_pieces(s: Text, sep: char)
    ensures
        joined(pieces(s, sep), seq![sep]) == s,
    decreases s.len(),
{
    let all = pieces(s, sep);
    if s.len() > 0 {
        let front = s.drop_last();
        let before = pieces(front, sep);
        pieces_is_never_empty(front, sep);
        joined_undoes_pieces(front, sep);
        if s.last() == sep {
            assert(all.drop_last() =~= before);
            assert(joined(all, seq![sep]) =~= s);
        } else if before.len() == 1 {
            assert(joined(all, seq![sep]) =~= s);
        } else {
            let rest = joined(before.drop_last(), seq![sep]) + seq![sep];
            assert(all.drop_last() =~= before.drop_last());
            assert(front == rest + before.last());
            assert(all.last() == before.last().push(s.last()));
            assert(rest + before.last().push(s.last()) =~= (rest + before.last()).push(s.last()));
            assert(front.push(s.last()) =~= s);
        }
    } else {
        assert(joined(all, seq![sep]) =~= s);
    }
}

/// Texts that do not hold the separator are read back from the text that they
/// are joined into.
pub proof fn pieces_undo_joined(parts: Seq<Text>, sep: char)
    requires
        parts.len() > 0,
        forall|i: int, k: int|
            0 <= i < parts.len() && 0 <= k < parts[i].len() ==> #[trigger] parts[i][k] != sep,
    ensures
        pieces(joined(parts, seq![sep]), sep) == parts,
    decreases parts.len(),
{
    let none = Seq::<char>::empty();
    let last = parts.last();
    assert forall|k: int| 0 <= k < last.len() implies last[k] != sep by {
        assert(parts[parts.len() - 1][k] != sep);
    }
    if parts.len() == 1 {
        pieces_go_on(none, last, sep);
        assert(none + last =~= last);
        assert(pieces(none, sep) =~= seq![none]);
        assert(pieces(last, sep) =~= parts);
    } else {
        let front = parts.drop_last();
        assert forall|i: int, k: int|
            0 <= i < front.len() && 0 <= k < front[i].len() implies #[trigger] front[i][k]
            != sep by {
            assert(parts[i][k] != sep);
        }
        pieces_undo_joined(front, sep);
        let start = joined(front, seq![sep]);
        let next = start + seq![sep];
        assert(next.drop_last() =~= start);
        assert(pieces(next, sep) == front.push(none));
        pieces_go_on(next, last, sep);
        assert(none + last =~= last);
        assert(pieces(next + last, sep) =~= parts);
    }
}

/// The texts of `parts` in order, `sep` between any two.
pub fn join(parts: &Vec<String>, sep: &str) -> (out: String)
    ensures
        out@ == joined(parts.deep_view(), sep@),
{
    let mut out = String::new();
    let ghost all = parts.deep_view();
    let mut i: usize = 0;
    assert(out@ =~= joined(all.take(0), sep@));
    while i < parts.len()
        invariant
            all == parts.deep_view(),
            i <= parts@.len(),
            out@ == joined(all.take(i as int), sep@),
        decreases parts.len() - i,
    {
        assert(all.take(i + 1).drop_last() =~= all.take(i as int));
        assert(all.take(i + 1).last() == parts@[i as int]@);
        if i > 0 {
            out.append(sep);
        } else {
            assert(out@ =~= Seq::empty());
            assert(Seq::<char>::empty() + parts@[0]@ =~= parts@[0]@);
        }
        out.append(parts[i].as_str());
        i = i + 1;
    }
    assert(all.take(i as int) =~= all);
    out
}

/// `s` with a backslash before every backslash and before every `special`.
pub open spec fn escaped(s: Text, special: char) -> Text
    decreases s.len(),
{
    if s.len() == 0 {
        s
    } else if s.last() == '\\' || s.last() == special {
        escaped(s.drop_last(), special).push('\\').push(s.last())
    } else {
        escaped(s.drop_last(), special).push(s.last())
    }
}

/// `s` with a backslash before every backslash and before every `special`.
pub fn escape(s: &str, special: char) -> (out: String)
    ensures
        out@ == escaped(s@, special),
{
    let x = chars_of(s);
    let mut out = String::new();
    let mut i: usize = 0;
    assert(out@ =~= escaped(x@.take(0), special));
    while i < x.len()
        invariant
            x@ == s@,
            i <= x@.len(),
            out@ == escaped(x@.take(i as int), special),
        decreases x.len() - i,
    {
        assert(x@.take(i + 1).drop_last() =~= x@.take(i as int));
        if x[i] == '\\' || x[i] == special {
            out.push('\\');
        }
        out.push(x[i]);
        i = i + 1;
    }
    assert(x@.take(i as int) =~= s@);
    out
}

// ── Numbers ──────────────────────────────────────────────────────────────

/// The digit that stands for `d`, which is below ten.
pub open spec fn digit(d: int) -> char {
    (48 + d) as char
}

/// Whether `c` is one of the digits 0 to 9.
pub open spec fn is_digit(c: char) -> bool {
    '0' <= c <= '9'
}

/// The decimal digits of `n`, without leading zeros.
pub open spec fn decimal(n: nat) -> Text
    decreases n,
{
    if n < 10 {
        seq![digit(n as int)]
    } else {
        decimal(n / 10).push(digit((n % 10) as int))
    }
}

/// Different numbers are written differently, and with digits only.
pub proof fn decimal_tells_apart(m: nat, n: nat)
    ensures
        decimal(m).len() > 0,
        forall|i: int| 0 <= i < decimal(m).len() ==> is_digit(#[trigger] decimal(m)[i]),
        decimal(m) == decimal(n) ==> m == n,
    decreases m,
{
    let a = decimal(m);
    let b = decimal(n);
    assert(is_digit(digit((m % 10) as int)));
    if m >= 10 {
        decimal_tells_apart(m / 10, n / 10);
        assert forall|i: int| 0 <= i < a.len() implies is_digit(#[trigger] a[i]) by {
            if i < a.len() - 1 {
                assert(a[i] == decimal(m / 10)[i]);
            }
        }
    }
    if n >= 10 {
        decimal_is_written(n / 10);
    }
    if a == b {
        assert(a.last() == b.last());
        assert(m % 10 == n % 10);
        if m >= 10 && n >= 10 {
            assert(a.drop_last() =~= decimal(m / 10));
            assert(b.drop_last() =~= decimal(n / 10));
        } else if m >= 10 {
            assert(a.len() > 1);
        } else if n >= 10 {
            assert(b.len() > 1);
        }
    }
}

proof fn decimal_is_written(n: nat)
    ensures
        decimal(n).len() > 0,
    decreases n,
{
    if n >= 10 {
        decimal_is_written(n / 10);
    }
}

/// `n` in decimal, with a minus sign where it is below zero.
pub open spec fn signed_decimal(n: int) -> Text {
    if n < 0 {
        seq!['-'] + decimal((-n) as nat)
    } else {
        decimal(n as nat)
    }
}

/// The decimal digits of `n`.
pub fn number(n: u64) -> (out: String)
    ensures
        out@ == decimal(n as nat),
    decreases n,
{
    let d: u8 = 48 + ((n % 10) as u8);
    let mut out = if n < 10 {
        String::new()
    } else {
        number(n / 10)
    };
    out.push(d as char);
    out
}

/// The decimal digits of a count.
pub fn count(n: usize) -> (out: String)
    ensures
        out@ == decimal(n as nat),
{
    number(n as u64)
}

/// `n` in decimal, with a minus sign where it is below zero.
pub fn signed_number(n: i64) -> (out: String)
    ensures
        out@ == signed_decimal(n as int),
{
    if n < 0 {
        let mut out = String::new();
        out.push('-');
        let digits = number((-(n as i128)) as u64);
        out.append(digits.as_str());
        assert(out@ =~= seq!['-'] + digits@);
        out
    } else {
        number(n as u64)
    }
}

/// The number that the digits of `s` stand for, read in decimal; `None` where
/// some character is no digit.
pub open spec fn digits_value(s: Text) -> Option<nat>
    decreases s.len(),
{
    if s.len() == 0 {
        Some(0)
    } else if !is_digit(s.last()) {
        None
    } else {
        match digits_value(s.drop_last()) {
            Some(n) => Some(n * 10 + (s.last() as u32 - 48) as nat),
            None => None,
        }
    }
}

/// The number that `s` writes out: digits only, at least one, with or without
/// a sign in front.
pub open spec fn integer_value(s: Text) -> Option<int> {
    let signed = s.len() > 0 && (s[0] == '-' || s[0] == '+');
    let digits = if signed {
        s.drop_first()
    } else {
        s
    };
    match digits_value(digits) {
        Some(n) if digits.len() > 0 => Some(
            if s[0] == '-' {
                -(n as int)
            } else {
                n as int
            },
        ),
        _ => None,
    }
}

/// What `s` writes out as an integer of 64 bits: digits only, at least one,
/// with or without a sign in front, within the range of the type.
pub open spec fn i64_value(s: Text) -> Option<i64> {
    match integer_value(s) {
        Some(n) if i64::MIN <= n <= i64::MAX => Some(n as i64),
        _ => None,
    }
}

/// What `s` writes out as an unsigned integer of 32 bits: digits only, at
/// least one, with or without a plus sign in front, within the range of the
/// type.
pub open spec fn u32_value(s: Text) -> Option<u32> {
    match integer_value(s) {
        Some(n) if n <= u32::MAX && s[0] != '-' => Some(n as u32),
        _ => None,
    }
}

proof fn digits_value_grows(s: Text, i: int)
    requires
        0 <= i <= s.len(),
        digits_value(s) is Some,
    ensures
        digits_value(s.take(i)) is Some,
        digits_value(s.take(i))->0 <= digits_value(s)->0,
    decreases s.len() - i,
{
    if i < s.len() {
        digits_value_grows(s, i + 1);
        assert(s.take(i + 1).drop_last() =~= s.take(i));
    } else {
        assert(s.take(i) =~= s);
    }
}

proof fn digits_value_needs_digits(s: Text, i: int)
    requires
        0 <= i < s.len(),
        !is_digit(s[i]),
    ensures
        digits_value(s) is None,
    decreases s.len(),
{
    if i < s.len() - 1 {
        digits_value_needs_digits(s.drop_last(), i);
    }
}

/// The number written by the digits of `x` from `from` on, where it is no
/// larger than `limit`.
fn read_digits(x: &Vec<char>, from: usize, limit: u64) -> (r: Option<u64>)
    requires
        from <= x@.len(),
    ensures
        r == (match digits_value(x@.skip(from as int)) {
            Some(n) if n <= limit => Some(n as u64),
            _ => None,
        }),
{
    let ghost all = x@.skip(from as int);
    let mut n: u64 = 0;
    let mut i: usize = from;
    assert(all.take(0) =~= Seq::empty());
    while i < x.len()
        invariant
            from <= i <= x@.len(),
            all == x@.skip(from as int),
            digits_value(all.take(i - from)) == Some(n as nat),
            n <= limit,
        decreases x.len() - i,
    {
        let c = x[i];
        assert(c == all[i - from]);
        if c < '0' || c > '9' {
            proof {
                digits_value_needs_digits(all, i - from);
            }
            return None;
        }
        let d: u64 = (c as u64) - 48;
        assert(all.take(i - from + 1).drop_last() =~= all.take(i - from));
        assert(digits_value(all.take(i - from + 1)) == Some((n * 10 + d) as nat));
        let wide: u128 = (n as u128) * 10 + (d as u128);
        if wide > (limit as u128) {
            proof {
                if digits_value(all) is Some {
                    digits_value_grows(all, i - from + 1);
                }
            }
            return None;
        }
        n = wide as u64;
        i = i + 1;
    }
    assert(all.take(i - from) =~= all);
    Some(n)
}

/// Reads an integer of 64 bits.
pub fn read_i64(s: &str) -> (r: Option<i64>)
    ensures
        r == i64_value(s@),
{
    let x = chars_of(s);
    if x.len() == 0 {
        return None;
    }
    let minus = x[0] == '-';
    let from: usize = if minus || x[0] == '+' {
        1
    } else {
        0
    };
    assert(x@.skip(1) =~= x@.drop_first());
    assert(x@.skip(0) =~= x@);
    if from == x.len() {
        return None;
    }
    if minus {
        match read_digits(&x, from, 0x8000_0000_0000_0000) {
            Some(n) => Some((-(n as i128)) as i64),
            None => None,
        }
    } else {
        match read_digits(&x, from, 0x7fff_ffff_ffff_ffff) {
            Some(n) => Some(n as i64),
            None => None,
        }
    }
}

/// Reads an unsigned integer of 32 bits.
pub fn read_u32(s: &str) -> (r: Option<u32>)
    ensures
        r == u32_value(s@),
{
    let x = chars_of(s);
    if x.len() == 0 || x[0] == '-' {
        return None;
    }
    let from: usize = if x[0] == '+' {
        1
    } else {
        0
    };
    assert(x@.skip(1) =~= x@.drop_first());
    assert(x@.skip(0) =~= x@);
    if from == x.len() {
        return None;
    }
    match read_digits(&x, from, 0xffff_ffff) {
        Some(n) => Some(n as u32),
        None => None,
    }
}

// ── What texts promise ───────────────────────────────────────────────────

proof fn digits_read_back(n: nat)
    ensures
        digits_value(decimal(n)) == Some(n),
    decreases n,
{
    let all = decimal(n);
    if n >= 10 {
        digits_read_back(n / 10);
        assert(all.drop_last() =~= decimal(n / 10));
        assert(all.last() as nat == 48 + n % 10);
    } else {
        assert(all.drop_last() =~= Seq::<char>::empty());
        assert(digits_value(all.drop_last()) == Some(0nat));
        assert(all.last() as nat == 48 + n);
    }
}

/// A number that is written out reads back as itself, with its sign; a plus sign
/// changes nothing, and what is too large for the type is not read.
pub proof fn numbers_read_back(n: i64, m: nat)
    ensures
        i64_value(signed_decimal(n as int)) == Some(n),
        m <= i64::MAX ==> i64_value(decimal(m)) == Some(m as i64),
        m <= i64::MAX ==> i64_value(seq!['+'] + decimal(m)) == Some(m as i64),
        m > i64::MAX ==> i64_value(decimal(m)) is None,
        m <= u32::MAX ==> u32_value(decimal(m)) == Some(m as u32),
        m > u32::MAX ==> u32_value(decimal(m)) is None,
        u32_value(seq!['-'] + decimal(m)) is None,
{
    digits_read_back(m);
    decimal_tells_apart(m, m);
    assert(is_digit(decimal(m)[0]));
    let plus = seq!['+'] + decimal(m);
    assert(plus.drop_first() =~= decimal(m));
    let size: nat = if n < 0 {
        (-n) as nat
    } else {
        n as nat
    };
    digits_read_back(size);
    decimal_tells_apart(size, size);
    assert(is_digit(decimal(size)[0]));
    if n < 0 {
        reveal_strlit("-");
        let minus = signed_decimal(n as int);
        assert(minus.drop_first() =~= decimal(size));
        assert(minus[0] == '-');
    }
}

/// What is no number is not read as one: nothing at all, and nothing that holds
/// a character other than a digit behind its first.
pub proof fn only_digits_are_read(s: Text, i: int)
    ensures
        i64_value(Seq::empty()) is None,
        u32_value(Seq::empty()) is None,
        0 < i < s.len() && !is_digit(s[i]) ==> i64_value(s) is None && u32_value(s) is None,
        s.len() > 0 && !is_digit(s[0]) && s[0] != '-' && s[0] != '+' ==> i64_value(s) is None
            && u32_value(s) is None,
{
    if 0 < i < s.len() && !is_digit(s[i]) {
        digits_value_needs_digits(s, i);
        assert(s.drop_first()[i - 1] == s[i]);
        digits_value_needs_digits(s.drop_first(), i - 1);
    }
    if s.len() > 0 && !is_digit(s[0]) {
        digits_value_needs_digits(s, 0);
    }
}

proof fn trimmed_start_of_space(a: Text, t: Text)
    requires
        forall|i: int| 0 <= i < a.len() ==> is_space(#[trigger] a[i]),
        t.len() > 0 ==> !is_space(t[0]),
    ensures
        trimmed_start(a + t) == t,
    decreases a.len(),
{
    if a.len() == 0 {
        assert(a + t =~= t);
    } else {
        let rest = a.drop_first();
        assert((a + t).drop_first() =~= rest + t);
        assert((a + t)[0] == a[0]);
        assert(is_space(a[0]));
        assert forall|i: int| 0 <= i < rest.len() implies is_space(#[trigger] rest[i]) by {
            assert(rest[i] == a[i + 1]);
        }
        trimmed_start_of_space(rest, t);
    }
}

/// Trimming takes the white space off both ends, all of it, and nothing else.
/// Blanks, tabs and line breaks are white space; what can be seen is not.
pub proof fn trimming_takes_white_space_only(a: Text, s: Text, b: Text, c: char)
    requires
        forall|i: int| 0 <= i < a.len() ==> is_space(#[trigger] a[i]),
        forall|i: int| 0 <= i < b.len() ==> is_space(#[trigger] b[i]),
        s.len() > 0 ==> !is_space(s[0]) && !is_space(s.last()),
    ensures
        trimmed(a + s + b) == s,
        is_space(' ') && is_space('\t') && is_space('\n') && is_space('\r'),
        is_space('\u{b}') && is_space('\u{c}') && is_space('\u{85}') && is_space('\u{a0}'),
        is_space('\u{1680}') && is_space('\u{202f}') && is_space('\u{205f}') && is_space('\u{3000}'),
        '\u{2000}' <= c <= '\u{200a}' || c == '\u{2028}' || c == '\u{2029}' ==> is_space(c),
        '!' <= c <= '~' || '\u{a1}' <= c <= '\u{167f}' || '\u{3001}' <= c ==> !is_space(c),
{
    if s.len() == 0 {
        let all = a + b;
        let none = Seq::<char>::empty();
        assert(a + s + b =~= all + none);
        assert forall|i: int| 0 <= i < all.len() implies is_space(#[trigger] all[i]) by {
            if i < a.len() {
                assert(all[i] == a[i]);
            } else {
                assert(all[i] == b[i - a.len()]);
            }
        }
        trimmed_start_of_space(all, none);
        assert(s =~= none);
    } else {
        let t = s + b;
        assert(a + s + b =~= a + t);
        assert(t[0] == s[0]);
        trimmed_start_of_space(a, t);
        let n = s.len() as int;
        assert(t[n - 1] == s.last());
        assert forall|i: int| n <= i < t.len() implies is_space(#[trigger] t[i]) by {
            assert(t[i] == b[i - n]);
        }
        trimmed_end_at(t, n);
        assert(t.take(n) =~= s);
    }
}

/// Texts are in the order of the first place where they differ, by code point; a
/// text comes before what extends it.
pub proof fn texts_go_by_the_first_difference(front: Text, a: Text, b: Text)
    ensures
        b.len() > 0 ==> precedes(front, front + b),
        !precedes(front + b, front),
        a.len() > 0 && b.len() > 0 && a[0] != b[0] ==> (precedes(front + a, front + b) <==> a[0]
            < b[0]),
    decreases front.len(),
{
    if front.len() > 0 {
        let rest = front.drop_first();
        assert((front + a).drop_first() =~= rest + a);
        assert((front + b).drop_first() =~= rest + b);
        texts_go_by_the_first_difference(rest, a, b);
    } else {
        assert(front + a =~= a);
        assert(front + b =~= b);
    }
}

/// In lower case, the letters A to Z are 32 places further, and every other
/// character stays; once is enough.
pub proof fn lower_case_moves_capitals_only(s: Text, i: int)
    requires
        is_ascii(s),
        0 <= i < s.len(),
    ensures
        lowered(s).len() == s.len(),
        'A' <= s[i] <= 'Z' ==> lowered(s)[i] as nat == s[i] as nat + 32,
        !('A' <= s[i] <= 'Z') ==> lowered(s)[i] == s[i],
        lowered(lowered(s)) == lowered(s),
{
    let low = lowered(s);
    assert forall|k: int| 0 <= k < low.len() implies #[trigger] low[k] <= '\u{7f}' by {
        assert(s[k] <= '\u{7f}');
    }
    assert(is_ascii(low));
    assert forall|k: int| 0 <= k < low.len() implies lowered(low)[k] == low[k] by {
        assert(s[k] <= '\u{7f}');
    }
    assert(lowered(low) =~= low);
}

/// A text occurs in another exactly where that is made of something, the text,
/// and something.
pub proof fn occurring_is_being_part(a: Text, part: Text, b: Text, s: Text)
    ensures
        occurs(a + part + b, part),
        occurs(s, part) ==> exists|x: Text, y: Text| s == #[trigger] (x + part + y),
{
    let whole = a + part + b;
    assert(whole.subrange(a.len() as int, (a.len() + part.len()) as int) =~= part);
    assert(occurs_at(whole, part, a.len() as int));
    if occurs(s, part) {
        let at = choose|at: int| occurs_at(s, part, at);
        let x = s.take(at);
        let y = s.skip(at + part.len());
        assert(s =~= x + part + y) by {
            assert(s.subrange(at, at + part.len()) == part);
            assert forall|i: int| 0 <= i < s.len() implies s[i] == (x + part + y)[i] by {
                if at <= i < at + part.len() {
                    assert(s.subrange(at, at + part.len())[i - at] == s[i]);
                }
            }
        }
    }
}

/// Escaping leaves a text alone that holds neither a backslash nor the special
/// character, and puts a backslash in front of each that it holds.
pub proof fn escaping_marks_only_what_is_special(s: Text, special: char, c: char)
    ensures
        (forall|i: int| 0 <= i < s.len() ==> #[trigger] s[i] != '\\' && s[i] != special)
            ==> escaped(s, special) == s,
        c == special || c == '\\' ==> escaped(s.push(c), special) == escaped(s, special).push(
            '\\',
        ).push(c),
        c != special && c != '\\' ==> escaped(s.push(c), special) == escaped(s, special).push(c),
    decreases s.len(),
{
    assert(s.push(c).drop_last() =~= s);
    if s.len() > 0 {
        let front = s.drop_last();
        escaping_marks_only_what_is_special(front, special, c);
        if forall|i: int| 0 <= i < s.len() ==> #[trigger] s[i] != '\\' && s[i] != special {
            assert forall|i: int| 0 <= i < front.len() implies #[trigger] front[i] != '\\'
                && front[i] != special by {
                assert(s[i] != '\\' && s[i] != special);
            }
            assert(s[s.len() - 1] != '\\' && s[s.len() - 1] != special);
            assert(front.push(s.last()) =~= s);
        }
    }
}

proof fn nothing_is_below_zero(c: char)
    ensures
        '\0' <= c,
{
}

/// ASCII characters take up one byte each.
pub proof fn ascii_takes_a_byte_each(s: Text)
    requires
        is_ascii(s),
    ensures
        byte_length(s) == s.len(),
{
    assert forall|i: int| 0 <= i < s.len() implies '\0' <= #[trigger] s[i] <= '\u{7f}' by {
        nothing_is_below_zero(s[i]);
    }
    vstd::utf8::is_ascii_chars_encode_utf8(s);
}

/// A text without separators is one piece.
pub proof fn one_piece(s: Text, sep: char)
    requires
        forall|i: int| 0 <= i < s.len() ==> #[trigger] s[i] != sep,
    ensures
        pieces(s, sep) == seq![s],
{
    first_piece(s, sep, s.len() as int);
    assert(s.take(s.len() as int) =~= s);
    assert(pieces(s, sep) =~= seq![s]);
}

/// The pieces of two texts with a separator between them are those of the one
/// and those of the other.
pub proof fn pieces_add_up(a: Text, sep: char, b: Text)
    ensures
        pieces(a.push(sep) + b, sep) == pieces(a, sep) + pieces(b, sep),
    decreases b.len(),
{
    let none = Seq::<char>::empty();
    let before = pieces(a, sep);
    assert(a.push(sep).drop_last() =~= a);
    pieces_is_never_empty(a, sep);
    pieces_is_never_empty(b, sep);
    if b.len() == 0 {
        assert(a.push(sep) + b =~= a.push(sep));
        assert(pieces(a.push(sep), sep) =~= before + pieces(b, sep));
    } else {
        let front = b.drop_last();
        pieces_add_up(a, sep, front);
        pieces_is_never_empty(front, sep);
        assert((a.push(sep) + b).drop_last() =~= a.push(sep) + front);
        assert((a.push(sep) + b).last() == b.last());
        assert(pieces(a.push(sep) + b, sep) =~= before + pieces(b, sep));
    }
}

} // verus!
