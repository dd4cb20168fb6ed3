//! Putting things in order: a stable sort, and the ascending list of the
//! distinct texts among many.

use crate::text::{is_before, precedes, precedes_is_irreflexive, precedes_is_total, precedes_is_transitive, same, Text};
use vstd::prelude::*;

verus! {

// ── Stable sort ──────────────────────────────────────────────────────────

/// `s` with `x` put in behind everything at its end that `x` need not come
/// before.
pub open spec fn placed<V>(s: Seq<V>, x: V, before: spec_fn(V, V) -> bool) -> Seq<V>
    decreases s.len(),
{
    if s.len() > 0 && before(x, s.last()) {
        placed(s.drop_last(), x, before).push(s.last())
    } else {
        s.push(x)
    }
}

/// The items of `s` in the order that `before` asks for; items that it does
/// not tell apart keep the order they had.
pub open spec fn arranged<V>(s: Seq<V>, before: spec_fn(V, V) -> bool) -> Seq<V>
    decreases s.len(),
{
    if s.len() == 0 {
        s
    } else {
        placed(arranged(s.drop_last(), before), s.last(), before)
    }
}

/// A type whose values have an order.
pub trait Arrange: DeepView + Sized {
    /// Whether the first of two values has to come before the second.
    spec fn before() -> spec_fn(Self::V, Self::V) -> bool;

    /// Whether this value has to come before `other`.
    fn comes_before(&self, other: &Self) -> (r: bool)
        ensures
            r == Self::before()(self.deep_view(), other.deep_view()),
    ;
}

proof fn placed_at<V>(s: Seq<V>, x: V, before: spec_fn(V, V) -> bool, at: int)
    requires
        0 <= at <= s.len(),
        forall|j: int| at <= j < s.len() ==> before(x, #[trigger] s[j]),
        at > 0 ==> !before(x, s[at - 1]),
    ensures
        placed(s, x, before) == s.insert(at, x),
    decreases s.len(),
{
    if at < s.len() {
        assert(before(x, s[s.len() - 1]));
        placed_at(s.drop_last(), x, before, at);
        assert(s.drop_last().insert(at, x).push(s.last()) =~= s.insert(at, x));
    } else {
        assert(s.push(x) =~= s.insert(at, x));
    }
}

fn place<T: Arrange>(v: &mut Vec<T>, x: T)
    ensures
        final(v).deep_view() == placed(old(v).deep_view(), x.deep_view(), T::before()),
{
    let ghost s = v.deep_view();
    let mut at: usize = v.len();
    while at > 0 && x.comes_before(&v[at - 1])
        invariant
            v@ == old(v)@,
            s == v.deep_view(),
            at <= v@.len(),
            forall|j: int| at <= j < s.len() ==> T::before()(x.deep_view(), #[trigger] s[j]),
        decreases at,
    {
        assert(s[at - 1] == v@[at - 1].deep_view());
        at = at - 1;
    }
    proof {
        if at > 0 {
            assert(s[at - 1] == v@[at - 1].deep_view());
        }
        placed_at(s, x.deep_view(), T::before(), at as int);
    }
    let ghost w = x.deep_view();
    v.insert(at, x);
    assert(v.deep_view() =~= s.insert(at as int, w));
}

/// Puts the items of `v` in order; items that the order does not tell apart
/// keep the order they had.
pub fn arrange<T: Arrange>(v: Vec<T>) -> (out: Vec<T>)
    ensures
        out.deep_view() == arranged(v.deep_view(), T::before()),
{
    let ghost all = v.deep_view();
    let mut rest = v;
    let mut out: Vec<T> = Vec::new();
    let ghost mut done: int = 0;
    assert(out.deep_view() =~= arranged(all.take(0), T::before()));
    assert(rest.deep_view() =~= all.skip(0));
    while rest.len() > 0
        invariant
            0 <= done <= all.len(),
            rest.deep_view() == all.skip(done),
            out.deep_view() == arranged(all.take(done), T::before()),
        decreases rest.len(),
    {
        let ghost before = rest.deep_view();
        let x = rest.remove(0);
        assert(before[0] == x.deep_view());
        assert(rest.deep_view() =~= before.drop_first());
        assert(all.skip(done).drop_first() =~= all.skip(done + 1));
        assert(all.take(done + 1).drop_last() =~= all.take(done));
        assert(all.take(done + 1).last() == all.skip(done)[0]);
        place(&mut out, x);
        proof {
            done = done + 1;
        }
    }
    assert(rest.deep_view().len() == 0);
    assert(all.take(done) =~= all);
    out
}

proof fn placed_is_permutation<V>(s: Seq<V>, x: V, before: spec_fn(V, V) -> bool)
    ensures
        placed(s, x, before).to_multiset() == s.to_multiset().insert(x),
        placed(s, x, before).len() == s.len() + 1,
    decreases s.len(),
{
    broadcast use vstd::seq_lib::group_to_multiset_ensures;

    if s.len() > 0 && before(x, s.last()) {
        placed_is_permutation(s.drop_last(), x, before);
        assert(s =~= s.drop_last().push(s.last()));
        assert(s.to_multiset() =~= s.drop_last().to_multiset().insert(s.last()));
        assert(placed(s, x, before).to_multiset() =~= s.to_multiset().insert(x));
    }
}

/// Sorting keeps every item, as often as it was there, and adds none.
pub proof fn arranged_is_permutation<V>(s: Seq<V>, before: spec_fn(V, V) -> bool)
    ensures
        arranged(s, before).to_multiset() == s.to_multiset(),
        arranged(s, before).len() == s.len(),
    decreases s.len(),
{
    broadcast use vstd::seq_lib::group_to_multiset_ensures;

    if s.len() > 0 {
        arranged_is_permutation(s.drop_last(), before);
        placed_is_permutation(arranged(s.drop_last(), before), s.last(), before);
        assert(s =~= s.drop_last().push(s.last()));
    }
}

/// Lists with the same items, each as often, hold the same items.
pub proof fn same_items<V>(s: Seq<V>, t: Seq<V>)
    requires
        s.to_multiset() == t.to_multiset(),
    ensures
        s.len() == t.len(),
        forall|x: V| #[trigger] s.contains(x) <==> t.contains(x),
{
    broadcast use vstd::seq_lib::group_to_multiset_ensures;

    assert forall|x: V| #[trigger] s.contains(x) <==> t.contains(x) by {
        assert(s.contains(x) <==> s.to_multiset().count(x) > 0);
        assert(t.contains(x) <==> t.to_multiset().count(x) > 0);
    }
    assert(s.len() == s.to_multiset().len());
}

/// Whether `before` can sort: nothing comes before itself, and of things that
/// it does not tell apart, each stands to every third as the other does.
pub open spec fn is_order<V>(before: spec_fn(V, V) -> bool) -> bool {
    &&& forall|a: V, b: V| #[trigger] before(a, b) ==> !before(b, a)
    &&& forall|a: V, b: V, c: V|
        !#[trigger] before(a, b) && !#[trigger] before(b, c) ==> !before(a, c)
}

/// Whether nothing in `s` stands in front of what has to come before it.
pub open spec fn in_order<V>(s: Seq<V>, before: spec_fn(V, V) -> bool) -> bool {
    forall|i: int, j: int| 0 <= i < j < s.len() ==> !before(#[trigger] s[j], #[trigger] s[i])
}

proof fn placed_in_order<V>(s: Seq<V>, x: V, before: spec_fn(V, V) -> bool)
    requires
        is_order(before),
        in_order(s, before),
    ensures
        in_order(placed(s, x, before), before),
        forall|k: int|
            0 <= k < placed(s, x, before).len() ==> (#[trigger] placed(s, x, before)[k] == x
                || s.contains(placed(s, x, before)[k])),
    decreases s.len(),
{
    let out = placed(s, x, before);
    if s.len() > 0 && before(x, s.last()) {
        let front = placed(s.drop_last(), x, before);
        placed_in_order(s.drop_last(), x, before);
        assert forall|k: int| 0 <= k < out.len() implies (#[trigger] out[k] == x || s.contains(
            out[k],
        )) by {
            if k < front.len() {
                if front[k] != x {
                    let m = choose|m: int| 0 <= m < s.drop_last().len() && s.drop_last()[m] == front[k];
                    assert(s[m] == front[k]);
                }
            } else {
                assert(s[s.len() - 1] == out[k]);
            }
        }
        assert forall|i: int, j: int| 0 <= i < j < out.len() implies !before(
            #[trigger] out[j],
            #[trigger] out[i],
        ) by {
            if j == front.len() {
                assert(out[i] == front[i]);
                if front[i] != x {
                    let m = choose|m: int| 0 <= m < s.drop_last().len() && s.drop_last()[m] == front[i];
                    assert(s[m] == front[i]);
                    assert(!before(s[s.len() - 1], s[m]));
                }
            } else {
                assert(out[i] == front[i] && out[j] == front[j]);
            }
        }
    } else {
        assert forall|i: int, j: int| 0 <= i < j < out.len() implies !before(
            #[trigger] out[j],
            #[trigger] out[i],
        ) by {
            if j == s.len() {
                if i < s.len() - 1 {
                    assert(!before(s[s.len() - 1], s[i]));
                }
            }
        }
        assert forall|k: int| 0 <= k < out.len() implies (#[trigger] out[k] == x || s.contains(
            out[k],
        )) by {
            if k < s.len() {
                assert(s[k] == out[k]);
            }
        }
    }
}

/// Sorting by an order leaves nothing in front of what has to come before it.
pub proof fn arranged_in_order<V>(s: Seq<V>, before: spec_fn(V, V) -> bool)
    requires
        is_order(before),
    ensures
        in_order(arranged(s, before), before),
    decreases s.len(),
{
    if s.len() > 0 {
        arranged_in_order(s.drop_last(), before);
        placed_in_order(arranged(s.drop_last(), before), s.last(), before);
    }
}

proof fn filter_push<V>(s: Seq<V>, x: V, keep: spec_fn(V) -> bool)
    ensures
        s.push(x).filter(keep) == (if keep(x) {
            s.filter(keep).push(x)
        } else {
            s.filter(keep)
        }),
{
    reveal(Seq::filter);
    assert(s.push(x).drop_last() =~= s);
}

proof fn placed_is_stable<V>(
    s: Seq<V>,
    x: V,
    before: spec_fn(V, V) -> bool,
    alike: spec_fn(V) -> bool,
)
    requires
        forall|a: V, b: V| alike(a) && alike(b) ==> !#[trigger] before(a, b),
    ensures
        placed(s, x, before).filter(alike) == s.push(x).filter(alike),
    decreases s.len(),
{
    if s.len() > 0 && before(x, s.last()) {
        placed_is_stable(s.drop_last(), x, before, alike);
        assert(s =~= s.drop_last().push(s.last()));
        filter_push(placed(s.drop_last(), x, before), s.last(), alike);
        filter_push(s.drop_last(), x, alike);
        filter_push(s.drop_last(), s.last(), alike);
        filter_push(s, x, alike);
    }
}

/// Sorting keeps the order among items that the order does not tell apart.
pub proof fn arranged_is_stable<V>(
    s: Seq<V>,
    before: spec_fn(V, V) -> bool,
    alike: spec_fn(V) -> bool,
)
    requires
        forall|a: V, b: V| alike(a) && alike(b) ==> !#[trigger] before(a, b),
    ensures
        arranged(s, before).filter(alike) == s.filter(alike),
    decreases s.len(),
{
    if s.len() > 0 {
        arranged_is_stable(s.drop_last(), before, alike);
        placed_is_stable(arranged(s.drop_last(), before), s.last(), before, alike);
        filter_push(arranged(s.drop_last(), before), s.last(), alike);
        filter_push(s.drop_last(), s.last(), alike);
        assert(s =~= s.drop_last().push(s.last()));
    }
}

/// Whether `before` tells any two different items of `s` apart.
pub open spec fn told_apart<V>(s: Seq<V>, before: spec_fn(V, V) -> bool) -> bool {
    forall|i: int, j: int|
        0 <= i < s.len() && 0 <= j < s.len() ==> s[i] == s[j] || before(#[trigger] s[i], #[trigger] s[j])
            || before(s[j], s[i])
}

proof fn sorted_once<V>(x: Seq<V>, y: Seq<V>, before: spec_fn(V, V) -> bool)
    requires
        in_order(x, before),
        in_order(y, before),
        told_apart(x, before),
        x.to_multiset() == y.to_multiset(),
    ensures
        x == y,
    decreases x.len(),
{
    broadcast use vstd::seq_lib::group_to_multiset_ensures;

    assert(x.len() == x.to_multiset().len());
    assert(y.len() == y.to_multiset().len());
    if x.len() > 0 {
        let a = x.last();
        let b = y.last();
        assert(x.to_multiset().count(a) > 0) by {
            assert(x.contains(a));
        }
        assert(y.to_multiset().count(b) > 0) by {
            assert(y.contains(b));
        }
        let k = choose|k: int| 0 <= k < y.len() && y[k] == a;
        let m = choose|m: int| 0 <= m < x.len() && x[m] == b;
        assert(a == b) by {
            if k < y.len() - 1 {
                assert(!before(y[y.len() - 1], y[k]));
            }
            if m < x.len() - 1 {
                assert(!before(x[x.len() - 1], x[m]));
            }
            assert(x[x.len() - 1] == x[m] || before(x[x.len() - 1], x[m]) || before(
                x[m],
                x[x.len() - 1],
            ));
        }
        let p = x.drop_last();
        let q = y.drop_last();
        assert(x =~= p.push(a));
        assert(y =~= q.push(a));
        assert(p.to_multiset() =~= x.to_multiset().remove(a));
        assert(q.to_multiset() =~= y.to_multiset().remove(a));
        sorted_once(p, q, before);
    } else {
        assert(x =~= y);
    }
}

/// Where the order tells any two different items apart, the sorted list
/// depends on which items there are, not on how they came.
pub proof fn arranged_forgets_order<V>(s: Seq<V>, t: Seq<V>, before: spec_fn(V, V) -> bool)
    requires
        is_order(before),
        told_apart(s, before),
        s.to_multiset() == t.to_multiset(),
    ensures
        arranged(s, before) == arranged(t, before),
{
    broadcast use vstd::seq_lib::group_to_multiset_ensures;

    let x = arranged(s, before);
    arranged_in_order(s, before);
    arranged_in_order(t, before);
    arranged_is_permutation(s, before);
    arranged_is_permutation(t, before);
    assert forall|i: int, j: int| 0 <= i < x.len() && 0 <= j < x.len() implies x[i] == x[j]
        || before(#[trigger] x[i], #[trigger] x[j]) || before(x[j], x[i]) by {
        assert(x.contains(x[i]) && x.contains(x[j]));
        assert(s.contains(x[i]) && s.contains(x[j])) by {
            assert(s.to_multiset().count(x[i]) > 0 && s.to_multiset().count(x[j]) > 0);
        }
        let m = choose|m: int| 0 <= m < s.len() && s[m] == x[i];
        let n = choose|n: int| 0 <= n < s.len() && s[n] == x[j];
        assert(s[m] == s[n] || before(s[m], s[n]) || before(s[n], s[m]));
    }
    sorted_once(x, arranged(t, before), before);
}

/// Sorting a list that is in order changes nothing.
pub proof fn arranged_when_in_order<V>(s: Seq<V>, before: spec_fn(V, V) -> bool)
    requires
        in_order(s, before),
    ensures
        arranged(s, before) == s,
    decreases s.len(),
{
    if s.len() > 0 {
        let front = s.drop_last();
        assert(in_order(front, before));
        arranged_when_in_order(front, before);
        if front.len() > 0 {
            assert(!before(s[s.len() - 1], s[s.len() - 2]));
        }
        assert(front.push(s.last()) =~= s);
    }
}

proof fn placed_behind<V>(a: Seq<V>, b: Seq<V>, x: V, before: spec_fn(V, V) -> bool)
    requires
        forall|i: int| 0 <= i < a.len() ==> !before(x, #[trigger] a[i]),
    ensures
        placed(a + b, x, before) == a + placed(b, x, before),
    decreases b.len(),
{
    let out = placed(a + b, x, before);
    if b.len() > 0 && before(x, b.last()) {
        placed_behind(a, b.drop_last(), x, before);
        assert((a + b).drop_last() =~= a + b.drop_last());
        assert(out =~= a + placed(b, x, before));
    } else {
        if b.len() == 0 && a.len() > 0 {
            assert((a + b).last() == a[a.len() - 1]);
        }
        assert((a + b).push(x) =~= a + b.push(x));
    }
}

/// Where nothing of `b` has to come before anything of `a`, each of the two is
/// sorted by itself.
pub proof fn arranged_apart<V>(a: Seq<V>, b: Seq<V>, before: spec_fn(V, V) -> bool)
    requires
        forall|i: int, j: int|
            0 <= i < a.len() && 0 <= j < b.len() ==> !before(#[trigger] b[j], #[trigger] a[i]),
    ensures
        arranged(a + b, before) == arranged(a, before) + arranged(b, before),
    decreases b.len(),
{
    let first = arranged(a, before);
    if b.len() == 0 {
        assert(a + b =~= a);
        assert(first + arranged(b, before) =~= first);
    } else {
        let front = b.drop_last();
        let x = b.last();
        assert forall|i: int, j: int| 0 <= i < a.len() && 0 <= j < front.len() implies !before(
            #[trigger] front[j],
            #[trigger] a[i],
        ) by {
            assert(!before(b[j], a[i]));
        }
        arranged_apart(a, front, before);
        assert((a + b).drop_last() =~= a + front);
        arranged_is_permutation(a, before);
        same_items(first, a);
        assert forall|i: int| 0 <= i < first.len() implies !before(x, #[trigger] first[i]) by {
            assert(first.contains(first[i]));
            let k = choose|k: int| 0 <= k < a.len() && a[k] == first[i];
            assert(!before(b[b.len() - 1], a[k]));
        }
        placed_behind(first, arranged(front, before), x, before);
    }
}

// ── Ascending texts ──────────────────────────────────────────────────────

/// Whether every text of `s` stands before those behind it, so that none
/// occurs twice.
pub open spec fn ascending(s: Seq<Text>) -> bool {
    forall|i: int, j: int| 0 <= i < j < s.len() ==> precedes(#[trigger] s[i], #[trigger] s[j])
}

/// The ascending list `s` with `t` in it.
pub open spec fn with_text(s: Seq<Text>, t: Text) -> Seq<Text>
    decreases s.len(),
{
    if s.len() > 0 && s.last() == t {
        s
    } else if s.len() > 0 && precedes(t, s.last()) {
        with_text(s.drop_last(), t).push(s.last())
    } else {
        s.push(t)
    }
}

/// The distinct texts of `s`, in ascending order.
pub open spec fn distinct(s: Seq<Text>) -> Seq<Text>
    decreases s.len(),
{
    if s.len() == 0 {
        s
    } else {
        with_text(distinct(s.drop_last()), s.last())
    }
}

/// Putting a text into an ascending list keeps it ascending and adds nothing
/// else.
pub proof fn with_text_keeps(s: Seq<Text>, t: Text)
    requires
        ascending(s),
    ensures
        ascending(with_text(s, t)),
        forall|u: Text| #[trigger] with_text(s, t).contains(u) <==> (s.contains(u) || u == t),
    decreases s.len(),
{
    let out = with_text(s, t);
    if s.len() > 0 && s.last() == t {
        assert(s[s.len() - 1] == t);
    } else if s.len() > 0 && precedes(t, s.last()) {
        let front = s.drop_last();
        assert(ascending(front));
        with_text_keeps(front, t);
        let inner = with_text(front, t);
        assert forall|i: int, j: int| 0 <= i < j < out.len() implies precedes(
            #[trigger] out[i],
            #[trigger] out[j],
        ) by {
            if j == inner.len() {
                assert(inner.contains(inner[i]));
                if inner[i] != t {
                    let m = choose|m: int| 0 <= m < front.len() && front[m] == inner[i];
                    assert(precedes(s[m], s[s.len() - 1]));
                }
            } else {
                assert(out[i] == inner[i] && out[j] == inner[j]);
            }
        }
        assert forall|u: Text| #[trigger] out.contains(u) <==> (s.contains(u) || u == t) by {
            if out.contains(u) {
                let k = choose|k: int| 0 <= k < out.len() && out[k] == u;
                if k < inner.len() {
                    assert(inner[k] == u);
                    assert(inner.contains(u));
                    if u != t {
                        let m = choose|m: int| 0 <= m < front.len() && front[m] == u;
                        assert(s[m] == u);
                    }
                } else {
                    assert(s[s.len() - 1] == u);
                }
            }
            if s.contains(u) || u == t {
                if u == s.last() {
                    assert(out[out.len() - 1] == u);
                } else {
                    if u != t {
                        let m = choose|m: int| 0 <= m < s.len() && s[m] == u;
                        assert(front[m] == u);
                        assert(front.contains(u));
                    }
                    assert(inner.contains(u));
                    let k = choose|k: int| 0 <= k < inner.len() && inner[k] == u;
                    assert(out[k] == u);
                }
            }
        }
    } else {
        assert forall|i: int, j: int| 0 <= i < j < out.len() implies precedes(
            #[trigger] out[i],
            #[trigger] out[j],
        ) by {
            if j == s.len() {
                precedes_is_total(t, s.last());
                if i < s.len() - 1 {
                    assert(precedes(s[i], s[s.len() - 1]));
                    precedes_is_transitive(s[i], s.last(), t);
                }
            }
        }
        assert forall|u: Text| #[trigger] out.contains(u) <==> (s.contains(u) || u == t) by {
            if out.contains(u) {
                let k = choose|k: int| 0 <= k < out.len() && out[k] == u;
                if k < s.len() {
                    assert(s[k] == u);
                }
            }
            if s.contains(u) {
                let k = choose|k: int| 0 <= k < s.len() && s[k] == u;
                assert(out[k] == u);
            }
            if u == t {
                assert(out[s.len() as int] == t);
            }
        }
    }
}

/// The distinct texts come in ascending order, none twice, and are the texts
/// that were there.
pub proof fn distinct_is_ascending(s: Seq<Text>)
    ensures
        ascending(distinct(s)),
        forall|u: Text| #[trigger] distinct(s).contains(u) <==> s.contains(u),
    decreases s.len(),
{
    if s.len() > 0 {
        distinct_is_ascending(s.drop_last());
        with_text_keeps(distinct(s.drop_last()), s.last());
        assert forall|u: Text| #[trigger] distinct(s).contains(u) <==> s.contains(u) by {
            assert(s =~= s.drop_last().push(s.last()));
            if s.contains(u) {
                let k = choose|k: int| 0 <= k < s.len() && s[k] == u;
                if k < s.len() - 1 {
                    assert(s.drop_last()[k] == u);
                }
            }
            if s.drop_last().contains(u) {
                let k = choose|k: int| 0 <= k < s.drop_last().len() && s.drop_last()[k] == u;
                assert(s[k] == u);
            }
            assert(s[s.len() - 1] == s.last());
        }
    }
}

/// Ascending lists of the same texts are the same.
pub proof fn ascending_once(s: Seq<Text>, t: Seq<Text>)
    requires
        ascending(s),
        ascending(t),
        forall|u: Text| s.contains(u) <==> t.contains(u),
    ensures
        s == t,
    decreases s.len(),
{
    if s.len() == 0 || t.len() == 0 {
        if s.len() > 0 {
            assert(s.contains(s[0]));
        }
        if t.len() > 0 {
            assert(t.contains(t[0]));
        }
        assert(s =~= t);
    } else {
        let a = s.last();
        let b = t.last();
        let p = s.drop_last();
        let q = t.drop_last();
        assert(s[s.len() - 1] == a && t[t.len() - 1] == b);
        assert(s.contains(a) && t.contains(b));
        let k = choose|k: int| 0 <= k < t.len() && t[k] == a;
        let m = choose|m: int| 0 <= m < s.len() && s[m] == b;
        if a != b {
            assert(precedes(t[k], t[t.len() - 1]));
            assert(precedes(s[m], s[s.len() - 1]));
            precedes_is_transitive(a, b, a);
            precedes_is_irreflexive(a);
        }
        assert forall|u: Text| p.contains(u) <==> q.contains(u) by {
            shorter_by_last(s, u);
            shorter_by_last(t, u);
        }
        ascending_once(p, q);
        assert(s =~= p.push(a));
        assert(t =~= q.push(b));
    }
}

proof fn shorter_by_last(s: Seq<Text>, u: Text)
    requires
        ascending(s),
        s.len() > 0,
    ensures
        s.drop_last().contains(u) <==> s.contains(u) && u != s.last(),
{
    let front = s.drop_last();
    if front.contains(u) {
        let k = choose|k: int| 0 <= k < front.len() && front[k] == u;
        assert(precedes(s[k], s[s.len() - 1]));
        precedes_is_irreflexive(u);
        assert(s[k] == u);
    }
    if s.contains(u) && u != s.last() {
        let k = choose|k: int| 0 <= k < s.len() && s[k] == u;
        assert(front[k] == u);
    }
}

/// Puts `t` into the ascending list `list`, unless it is there.
pub fn add_text(list: &mut Vec<String>, t: &str)
    ensures
        final(list).deep_view() == with_text(old(list).deep_view(), t@),
{
    let ghost s = list.deep_view();
    let mut at: usize = list.len();
    assert(s.take(at as int) =~= s);
    assert(s.skip(at as int) =~= Seq::<Text>::empty());
    assert(with_text(s, t@) =~= with_text(s.take(at as int), t@) + s.skip(at as int));
    while at > 0 && is_before(t, list[at - 1].as_str())
        invariant
            list@ == old(list)@,
            s == list.deep_view(),
            at <= list@.len(),
            with_text(s, t@) == with_text(s.take(at as int), t@) + s.skip(at as int),
        decreases at,
    {
        proof {
            assert(s[at - 1] == list@[at - 1]@);
            precedes_is_irreflexive(t@);
            assert(s.take(at as int).drop_last() =~= s.take(at - 1));
            assert(s.take(at as int).last() == s[at - 1]);
            assert(with_text(s.take(at - 1), t@).push(s[at - 1]) + s.skip(at as int) =~= with_text(
                s.take(at - 1),
                t@,
            ) + s.skip(at - 1));
        }
        at = at - 1;
    }
    if at > 0 {
        assert(s[at - 1] == list@[at - 1]@);
        assert(s.take(at as int).last() == s[at - 1]);
        if same(t, list[at - 1].as_str()) {
            assert(s.take(at as int) + s.skip(at as int) =~= s);
            return;
        }
    }
    list.insert(at, t.to_owned());
    assert(list.deep_view() =~= s.take(at as int).push(t@) + s.skip(at as int));
}

/// The distinct texts of `list`, in ascending order.
pub fn distinct_of(list: &Vec<String>) -> (out: Vec<String>)
    ensures
        out.deep_view() == distinct(list.deep_view()),
{
    let ghost all = list.deep_view();
    let mut out: Vec<String> = Vec::new();
    let mut i: usize = 0;
    assert(out.deep_view() =~= distinct(all.take(0)));
    while i < list.len()
        invariant
            all == list.deep_view(),
            i <= list@.len(),
            out.deep_view() == distinct(all.take(i as int)),
        decreases list.len() - i,
    {
        assert(all.take(i + 1).drop_last() =~= all.take(i as int));
        assert(all.take(i + 1).last() == list@[i as int]@);
        add_text(&mut out, list[i].as_str());
        i = i + 1;
    }
    assert(all.take(i as int) =~= all);
    out
}

} // verus!
