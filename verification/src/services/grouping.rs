//! Putting things that belong together into groups, pair by pair.

use vstd::prelude::*;

verus! {

/// What stands for each thing once the groups of `i` and `j` are one: the
/// thing that stood for `i` stands for all of them.
pub open spec fn merged(rep: Seq<nat>, i: int, j: int) -> Seq<nat> {
    Seq::new(
        rep.len(),
        |k: int|
            if rep[k] == rep[j] {
                rep[i]
            } else {
                rep[k]
            },
    )
}

/// What stands for each of `n` things once all pairs of smaller first number
/// have been looked at, and of the pairs of `i` those with numbers below `j`;
/// a pair that `link` links is merged.
pub open spec fn merged_upto(n: nat, link: spec_fn(int, int) -> bool, i: nat, j: nat) -> Seq<nat>
    decreases i, j,
{
    if j > i + 1 {
        let earlier = merged_upto(n, link, i, (j - 1) as nat);
        if link(i as int, j - 1) {
            merged(earlier, i as int, j - 1)
        } else {
            earlier
        }
    } else if i > 0 {
        merged_upto(n, link, (i - 1) as nat, n)
    } else {
        Seq::new(n, |k: int| k as nat)
    }
}

/// What stands for each of `n` things once every pair that `link` links has
/// been merged. Things with the same representative make up a group.
pub open spec fn representatives(n: nat, link: spec_fn(int, int) -> bool) -> Seq<nat> {
    if n == 0 {
        Seq::empty()
    } else {
        merged_upto(n, link, (n - 1) as nat, n)
    }
}

/// The numbers below `upto` that `r` stands for.
pub open spec fn members(rep: Seq<nat>, r: nat, upto: nat) -> Seq<nat>
    decreases upto,
{
    if upto == 0 {
        Seq::empty()
    } else {
        let earlier = members(rep, r, (upto - 1) as nat);
        if rep[upto - 1] == r {
            earlier.push((upto - 1) as nat)
        } else {
            earlier
        }
    }
}

/// The groups whose representatives are below `upto`, in the order of their
/// representatives.
pub open spec fn groups_upto(rep: Seq<nat>, upto: nat) -> Seq<Seq<nat>>
    decreases upto,
{
    if upto == 0 {
        Seq::empty()
    } else {
        let earlier = groups_upto(rep, (upto - 1) as nat);
        let group = members(rep, (upto - 1) as nat, rep.len());
        if group.len() > 0 {
            earlier.push(group)
        } else {
            earlier
        }
    }
}

/// The groups of `n` things, of which `link` links some pairs.
pub open spec fn groups(n: nat, link: spec_fn(int, int) -> bool) -> Seq<Seq<nat>> {
    groups_upto(representatives(n, link), n)
}

/// Disjoint groups of the numbers below some bound.
pub struct Dsu {
    parent: Vec<usize>,
    rep: Ghost<Seq<nat>>,
    depth: Ghost<Seq<nat>>,
}

impl View for Dsu {
    type V = Seq<nat>;

    /// What stands for each number.
    closed spec fn view(&self) -> Seq<nat> {
        self.rep@
    }
}

/// Whether every number leads to the one that stands for it, step by step, and
/// that one leads to itself.
spec fn leads(parent: Seq<usize>, rep: Seq<nat>, depth: Seq<nat>) -> bool {
    &&& parent.len() == rep.len()
    &&& parent.len() == depth.len()
    &&& forall|x: int|
        0 <= x < parent.len() ==> {
            let p = (#[trigger] parent[x]) as int;
            &&& p < parent.len()
            &&& rep[x] < parent.len()
            &&& rep[p] == rep[x]
            &&& p == x <==> rep[x] == x
            &&& p != x ==> depth[p] < depth[x]
        }
    &&& forall|x: int| 0 <= x < rep.len() ==> #[trigger] rep[rep[x] as int] == rep[x]
}

impl Dsu {
    #[verifier::type_invariant]
    closed spec fn wf(&self) -> bool {
        leads(self.parent@, self.rep@, self.depth@)
    }

    /// Every number below `n` in a group of its own.
    pub fn new(n: usize) -> (out: Self)
        ensures
            out@ == Seq::new(n as nat, |k: int| k as nat),
    {
        let mut parent: Vec<usize> = Vec::new();
        let mut i: usize = 0;
        while i < n
            invariant
                i <= n,
                parent@.len() == i,
                forall|k: int| 0 <= k < i ==> #[trigger] parent@[k] == k,
            decreases n - i,
        {
            parent.push(i);
            i = i + 1;
        }
        Dsu {
            parent,
            rep: Ghost(Seq::new(n as nat, |k: int| k as nat)),
            depth: Ghost(Seq::new(n as nat, |k: int| 0nat)),
        }
    }

    /// What stands for `x`, which is what stands for itself. Shortens the way
    /// there for the next time.
    pub fn find(&mut self, x: usize) -> (r: usize)
        requires
            x < old(self)@.len(),
        ensures
            final(self)@ == old(self)@,
            r == old(self)@[x as int],
            r < old(self)@.len(),
            old(self)@[r as int] == r,
    {
        let ghost start = x;
        let mut whole = Dsu::new(0);
        std::mem::swap(self, &mut whole);
        proof {
            use_type_invariant(&whole);
        }
        let Dsu { mut parent, rep, depth } = whole;
        let mut x = x;
        while parent[x] != x
            invariant
                leads(parent@, rep@, depth@),
                x < parent@.len(),
                start < parent@.len(),
                rep@[x as int] == rep@[start as int],
            decreases depth@[x as int],
        {
            let up = parent[x];
            let next = parent[up];
            let ghost before = parent@;
            parent.set(x, next);
            assert(leads(parent@, rep@, depth@)) by {
                assert forall|y: int| 0 <= y < parent@.len() implies {
                    let p = (#[trigger] parent@[y]) as int;
                    &&& p < parent@.len()
                    &&& rep@[y] < parent@.len()
                    &&& rep@[p] == rep@[y]
                    &&& p == y <==> rep@[y] == y
                    &&& p != y ==> depth@[p] < depth@[y]
                } by {
                    assert(before[y] < before.len());
                    assert(before[up as int] < before.len());
                }
            }
            x = next;
        }
        *self = Dsu { parent, rep, depth };
        x
    }

    /// Makes the groups of `a` and `b` one.
    pub fn union(&mut self, a: usize, b: usize)
        requires
            a < old(self)@.len(),
            b < old(self)@.len(),
        ensures
            final(self)@ == merged(old(self)@, a as int, b as int),
    {
        let ra = self.find(a);
        let rb = self.find(b);
        if ra == rb {
            assert(merged(self@, a as int, b as int) =~= self@);
            return;
        }
        let mut whole = Dsu::new(0);
        std::mem::swap(self, &mut whole);
        proof {
            use_type_invariant(&whole);
        }
        let Dsu { mut parent, rep, depth } = whole;
        let ghost before = parent@;
        let ghost joint = merged(rep@, a as int, b as int);
        // The new root is the nearest, and everything else one step further.
        let ghost deeper = Seq::new(
            depth@.len(),
            |k: int|
                if k == ra {
                    0nat
                } else {
                    depth@[k] + 1
                },
        );
        parent.set(rb, ra);
        assert(leads(parent@, joint, deeper)) by {
            assert forall|y: int| 0 <= y < parent@.len() implies {
                let p = (#[trigger] parent@[y]) as int;
                &&& p < parent@.len()
                &&& joint[y] < parent@.len()
                &&& joint[p] == joint[y]
                &&& p == y <==> joint[y] == y
                &&& p != y ==> deeper[p] < deeper[y]
            } by {
                assert(before[y] < before.len());
                assert(before[ra as int] == ra);
                assert(before[rb as int] == rb);
            }
            assert forall|y: int| 0 <= y < joint.len() implies #[trigger] joint[joint[y] as int]
                == joint[y] by {
                assert(before[y] < before.len());
                assert(rep@[rep@[y] as int] == rep@[y]);
            }
        }
        *self = Dsu { parent, rep: Ghost(joint), depth: Ghost(deeper) };
    }
}

/// Merging makes one group of two and touches no other: two things belong
/// together afterwards exactly when they did before, or when one of them
/// belonged to each of the two groups.
pub proof fn merging_joins_two_groups(rep: Seq<nat>, a: int, b: int, x: int, y: int)
    requires
        0 <= a < rep.len(),
        0 <= b < rep.len(),
        0 <= x < rep.len(),
        0 <= y < rep.len(),
    ensures
        merged(rep, a, b)[x] == merged(rep, a, b)[y] <==> {
            ||| rep[x] == rep[y]
            ||| rep[x] == rep[a] && rep[y] == rep[b]
            ||| rep[x] == rep[b] && rep[y] == rep[a]
        },
{
}

// ── What a group is ──────────────────────────────────────────────────────

/// Whether `link` links the two, whichever comes first.
pub open spec fn adjacent(link: spec_fn(int, int) -> bool, a: int, b: int) -> bool {
    (a < b && link(a, b)) || (b < a && link(b, a))
}

/// Whether `way` leads through numbers below `n`, each linked to the next.
pub open spec fn is_way(n: nat, link: spec_fn(int, int) -> bool, way: Seq<int>) -> bool {
    &&& way.len() > 0
    &&& forall|k: int| 0 <= k < way.len() ==> 0 <= #[trigger] way[k] < n
    &&& forall|k: int|
        0 <= k < way.len() - 1 ==> adjacent(link, #[trigger] way[k], way[k + 1])
}

/// Whether a chain of links leads from `a` to `b`.
pub open spec fn connected(n: nat, link: spec_fn(int, int) -> bool, a: int, b: int) -> bool {
    exists|way: Seq<int>| #[trigger] is_way(n, link, way) && way.first() == a && way.last() == b
}

proof fn connected_back(n: nat, link: spec_fn(int, int) -> bool, a: int, b: int)
    requires
        connected(n, link, a, b),
    ensures
        connected(n, link, b, a),
{
    let way = choose|way: Seq<int>| #[trigger]
        is_way(n, link, way) && way.first() == a && way.last() == b;
    let back = way.reverse();
    assert(is_way(n, link, back)) by {
        assert forall|k: int| 0 <= k < back.len() - 1 implies adjacent(
            link,
            #[trigger] back[k],
            back[k + 1],
        ) by {
            let m = way.len() - 2 - k;
            assert(adjacent(link, way[m], way[m + 1]));
        }
    }
    assert(back.first() == b && back.last() == a);
}

proof fn connected_on(n: nat, link: spec_fn(int, int) -> bool, a: int, b: int, c: int)
    requires
        connected(n, link, a, b),
        connected(n, link, b, c),
    ensures
        connected(n, link, a, c),
{
    let one = choose|way: Seq<int>| #[trigger]
        is_way(n, link, way) && way.first() == a && way.last() == b;
    let two = choose|way: Seq<int>| #[trigger]
        is_way(n, link, way) && way.first() == b && way.last() == c;
    let both = one + two.drop_first();
    assert(is_way(n, link, both)) by {
        assert forall|k: int| 0 <= k < both.len() implies 0 <= #[trigger] both[k] < n by {
            if k >= one.len() {
                assert(both[k] == two[k - one.len() + 1]);
            } else {
                assert(both[k] == one[k]);
            }
        }
        assert forall|k: int| 0 <= k < both.len() - 1 implies adjacent(
            link,
            #[trigger] both[k],
            both[k + 1],
        ) by {
            if k < one.len() - 1 {
                assert(adjacent(link, one[k], one[k + 1]));
            } else {
                let m = k - one.len() + 1;
                assert(adjacent(link, two[m], two[m + 1]));
            }
        }
    }
    assert(both.first() == a);
    assert(both.last() == c);
}

spec fn sound(n: nat, link: spec_fn(int, int) -> bool, rep: Seq<nat>) -> bool {
    &&& rep.len() == n
    &&& forall|a: int, b: int|
        0 <= a < n && 0 <= b < n && #[trigger] rep[a] == #[trigger] rep[b] ==> connected(
            n,
            link,
            a,
            b,
        )
    &&& forall|a: int| 0 <= a < n ==> 0 <= #[trigger] rep[a] < n && rep[rep[a] as int] == rep[a]
}

spec fn complete(link: spec_fn(int, int) -> bool, rep: Seq<nat>, i: nat, j: nat) -> bool {
    forall|a: int, b: int|
        0 <= a < b < rep.len() && (a < i || (a == i && b < j)) && #[trigger] link(a, b) ==> rep[a]
            == rep[b]
}

proof fn merged_upto_holds(n: nat, link: spec_fn(int, int) -> bool, i: nat, j: nat)
    requires
        i < j <= n,
    ensures
        sound(n, link, merged_upto(n, link, i, j)),
        complete(link, merged_upto(n, link, i, j), i, j),
    decreases i, j,
{
    let rep = merged_upto(n, link, i, j);
    if j > i + 1 {
        let earlier = merged_upto(n, link, i, (j - 1) as nat);
        merged_upto_holds(n, link, i, (j - 1) as nat);
        let (p, q) = (i as int, j - 1);
        if link(p, q) {
            let way = seq![p, q];
            assert(is_way(n, link, way));
            assert(way.first() == p && way.last() == q);
            assert(connected(n, link, p, q));
            connected_back(n, link, p, q);
            assert forall|a: int, b: int|
                0 <= a < n && 0 <= b < n && #[trigger] rep[a]
                    == #[trigger] rep[b] implies connected(n, link, a, b) by {
                if earlier[a] != earlier[b] {
                    if earlier[a] == earlier[q] {
                        assert(earlier[b] == earlier[p]);
                        connected_on(n, link, a, q, p);
                        connected_on(n, link, a, p, b);
                    } else {
                        assert(earlier[a] == earlier[p]);
                        assert(earlier[b] == earlier[q]);
                        connected_on(n, link, a, p, q);
                        connected_on(n, link, a, q, b);
                    }
                }
            }
            assert forall|a: int| 0 <= a < n implies 0 <= #[trigger] rep[a] < n
                && rep[rep[a] as int] == rep[a] by {
                assert(earlier[earlier[a] as int] == earlier[a]);
                assert(earlier[earlier[p] as int] == earlier[p]);
            }
            assert(complete(link, rep, i, j)) by {
                assert forall|a: int, b: int|
                    0 <= a < b < rep.len() && (a < i || (a == i && b < j)) && #[trigger] link(
                        a,
                        b,
                    ) implies rep[a] == rep[b] by {
                    if a < i || b < j - 1 {
                        assert(earlier[a] == earlier[b]);
                    }
                }
            }
        }
    } else if i > 0 {
        merged_upto_holds(n, link, (i - 1) as nat, n);
    } else {
        assert forall|a: int, b: int|
            0 <= a < n && 0 <= b < n && #[trigger] rep[a] == #[trigger] rep[b] implies connected(
            n,
            link,
            a,
            b,
        ) by {
            let way = seq![a];
            assert(is_way(n, link, way));
            assert(way.first() == a && way.last() == b);
        }
    }
}

proof fn way_stays(n: nat, link: spec_fn(int, int) -> bool, rep: Seq<nat>, way: Seq<int>)
    requires
        rep.len() == n,
        is_way(n, link, way),
        complete(link, rep, n, n),
    ensures
        rep[way.first()] == rep[way.last()],
    decreases way.len(),
{
    if way.len() > 1 {
        let front = way.drop_last();
        assert(is_way(n, link, front)) by {
            assert forall|k: int| 0 <= k < front.len() - 1 implies adjacent(
                link,
                #[trigger] front[k],
                front[k + 1],
            ) by {
                assert(adjacent(link, way[k], way[k + 1]));
            }
        }
        way_stays(n, link, rep, front);
        let k = way.len() - 2;
        assert(adjacent(link, way[k], way[k + 1]));
        if way[k] < way[k + 1] {
            assert(link(way[k], way[k + 1]));
        } else {
            assert(link(way[k + 1], way[k]));
        }
    }
}

/// Two things are in one group exactly when a chain of links leads from one to
/// the other, and the representative of a group is one of the group.
pub proof fn group_is_what_links_connect(n: nat, link: spec_fn(int, int) -> bool, a: int, b: int)
    requires
        0 <= a < n,
        0 <= b < n,
    ensures
        representatives(n, link)[a] == representatives(n, link)[b] <==> connected(n, link, a, b),
        0 <= representatives(n, link)[a] < n,
        connected(n, link, a, representatives(n, link)[a] as int),
{
    let rep = representatives(n, link);
    merged_upto_holds(n, link, (n - 1) as nat, n);
    assert(complete(link, rep, n, n)) by {
        assert forall|x: int, y: int| 0 <= x < y < rep.len() && #[trigger] link(x, y) implies rep[x]
            == rep[y] by {}
    }
    if connected(n, link, a, b) {
        let way = choose|way: Seq<int>| #[trigger]
            is_way(n, link, way) && way.first() == a && way.last() == b;
        way_stays(n, link, rep, way);
    }
    assert(rep[rep[a] as int] == rep[a]);
}

proof fn members_are_those(rep: Seq<nat>, r: nat, upto: nat)
    requires
        upto <= rep.len(),
    ensures
        forall|x: nat| #[trigger] members(rep, r, upto).contains(x) <==> x < upto && rep[x as int] == r,
        forall|i: int, j: int|
            0 <= i < j < members(rep, r, upto).len() ==> members(rep, r, upto)[i] < members(
                rep,
                r,
                upto,
            )[j],
    decreases upto,
{
    let all = members(rep, r, upto);
    if upto > 0 {
        let earlier = members(rep, r, (upto - 1) as nat);
        members_are_those(rep, r, (upto - 1) as nat);
        assert forall|x: nat| #[trigger] all.contains(x) <==> x < upto && rep[x as int] == r by {
            if all.contains(x) {
                let k = choose|k: int| 0 <= k < all.len() && all[k] == x;
                if k < earlier.len() {
                    assert(earlier[k] == x);
                    assert(earlier.contains(x));
                }
            }
            if x < upto && rep[x as int] == r {
                if x == upto - 1 {
                    assert(all[all.len() - 1] == x);
                } else {
                    assert(earlier.contains(x));
                    let k = choose|k: int| 0 <= k < earlier.len() && earlier[k] == x;
                    assert(all[k] == x);
                }
            }
        }
        assert forall|i: int, j: int| 0 <= i < j < all.len() implies all[i] < all[j] by {
            assert(earlier.contains(earlier[i]));
        }
    }
}

proof fn groups_cover(rep: Seq<nat>, upto: nat)
    requires
        upto <= rep.len(),
    ensures
        forall|g: int|
            0 <= g < groups_upto(rep, upto).len() ==> exists|r: nat|
                r < upto && #[trigger] groups_upto(rep, upto)[g] == #[trigger] members(
                    rep,
                    r,
                    rep.len(),
                ) && groups_upto(rep, upto)[g].len() > 0,
        forall|r: nat|
            r < upto && #[trigger] members(rep, r, rep.len()).len() > 0 ==> groups_upto(
                rep,
                upto,
            ).contains(members(rep, r, rep.len())),
        groups_upto(rep, upto).no_duplicates(),
    decreases upto,
{
    let all = groups_upto(rep, upto);
    if upto > 0 {
        let last = (upto - 1) as nat;
        let earlier = groups_upto(rep, last);
        let group = members(rep, last, rep.len());
        groups_cover(rep, last);
        assert forall|g: int| 0 <= g < all.len() implies exists|r: nat|
            r < upto && #[trigger] all[g] == #[trigger] members(rep, r, rep.len()) && all[g].len()
                > 0 by {
            if g < earlier.len() {
                assert(all[g] == earlier[g]);
                let r = choose|r: nat|
                    r < last && earlier[g] == #[trigger] members(rep, r, rep.len())
                        && earlier[g].len() > 0;
                assert(all[g] == members(rep, r, rep.len()));
            } else {
                assert(all[g] == members(rep, last, rep.len()));
            }
        }
        assert forall|r: nat|
            r < upto && #[trigger] members(rep, r, rep.len()).len() > 0 implies all.contains(
            members(rep, r, rep.len()),
        ) by {
            let m = members(rep, r, rep.len());
            if r < last {
                assert(earlier.contains(m));
                let k = choose|k: int| 0 <= k < earlier.len() && earlier[k] == m;
                assert(all[k] == m);
            } else {
                assert(all[all.len() - 1] == m);
            }
        }
        if group.len() > 0 {
            assert(!earlier.contains(group)) by {
                if earlier.contains(group) {
                    let g = choose|g: int| 0 <= g < earlier.len() && earlier[g] == group;
                    let r = choose|r: nat|
                        r < last && earlier[g] == #[trigger] members(rep, r, rep.len())
                            && earlier[g].len() > 0;
                    members_are_those(rep, r, rep.len());
                    members_are_those(rep, last, rep.len());
                    assert(group.contains(group[0]));
                    assert(members(rep, r, rep.len()).contains(group[0]));
                }
            }
            assert forall|i: int, j: int|
                0 <= i < all.len() && 0 <= j < all.len() && i != j implies all[i] != all[j] by {
                if i < earlier.len() && j < earlier.len() {
                    assert(earlier[i] != earlier[j]);
                } else if i < earlier.len() {
                    assert(earlier.contains(earlier[i]));
                } else {
                    assert(earlier.contains(earlier[j]));
                }
            }
        }
    }
}

/// Whether one of `groups` holds `x`.
pub open spec fn is_grouped(groups: Seq<Seq<nat>>, x: nat) -> bool {
    exists|g: int| 0 <= g < groups.len() && (#[trigger] groups[g]).contains(x)
}

/// Every thing is in exactly one group: some group holds it, and a group that
/// holds it holds exactly what links connect it with, in ascending order.
pub proof fn groups_partition(n: nat, link: spec_fn(int, int) -> bool)
    ensures
        groups(n, link).no_duplicates(),
        forall|x: nat| x < n ==> #[trigger] is_grouped(groups(n, link), x),
        forall|g: int, x: nat, y: nat|
            0 <= g < groups(n, link).len() && #[trigger] groups(n, link)[g].contains(x) ==> (
            #[trigger] groups(n, link)[g].contains(y) <==> y < n && connected(
                n,
                link,
                x as int,
                y as int,
            )),
        forall|g: int, i: int, j: int|
            0 <= g < groups(n, link).len() && 0 <= i < j < groups(n, link)[g].len() ==> groups(
                n,
                link,
            )[g][i] < groups(n, link)[g][j],
        forall|g: int|
            0 <= g < groups(n, link).len() ==> (#[trigger] groups(n, link)[g]).len() > 0,
{
    let rep = representatives(n, link);
    if n > 0 {
        merged_upto_holds(n, link, (n - 1) as nat, n);
    }
    assert(rep.len() == n);
    let all = groups(n, link);
    groups_cover(rep, n);
    assert forall|x: nat| x < n implies #[trigger] is_grouped(all, x) by {
        let r = rep[x as int];
        group_is_what_links_connect(n, link, x as int, x as int);
        members_are_those(rep, r, n);
        let m = members(rep, r, n);
        assert(m.contains(x));
        assert(m.len() > 0);
        assert(all.contains(m));
        let g = choose|g: int| 0 <= g < all.len() && all[g] == m;
        assert(all[g].contains(x));
    }
    assert forall|g: int, x: nat, y: nat|
        0 <= g < all.len() && #[trigger] all[g].contains(x) implies (#[trigger] all[g].contains(y)
        <==> y < n && connected(n, link, x as int, y as int)) by {
        let r = choose|r: nat|
            r < n && all[g] == #[trigger] members(rep, r, n) && all[g].len() > 0;
        members_are_those(rep, r, n);
        assert(members(rep, r, n).contains(x));
        assert(members(rep, r, n).contains(y) <==> y < n && rep[y as int] == r);
        if y < n {
            group_is_what_links_connect(n, link, x as int, y as int);
        }
    }
    assert forall|g: int, i: int, j: int|
        0 <= g < all.len() && 0 <= i < j < all[g].len() implies all[g][i] < all[g][j] by {
        let r = choose|r: nat|
            r < n && all[g] == #[trigger] members(rep, r, n) && all[g].len() > 0;
        members_are_those(rep, r, n);
    }
}

} // verus!
