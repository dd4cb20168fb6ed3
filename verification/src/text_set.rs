//! A set of texts.

use crate::order::{add_text, ascending, distinct, distinct_is_ascending, distinct_of, with_text, with_text_keeps};
use crate::text::{copies, is_listed, precedes, precedes_is_irreflexive, same, Text};
use vstd::prelude::*;

verus! {

/// A set of texts, held in ascending order.
#[derive(Debug, PartialEq, Eq)]
pub struct TextSet {
    items: Vec<String>,
}

impl View for TextSet {
    type V = Set<Text>;

    closed spec fn view(&self) -> Set<Text> {
        self.items.deep_view().to_set()
    }
}

/// An ascending list holds no text twice.
pub proof fn ascending_has_no_duplicates(s: Seq<Text>)
    requires
        ascending(s),
    ensures
        s.no_duplicates(),
        s.to_set().len() == s.len(),
        s.to_set().finite(),
{
    assert forall|i: int, j: int| 0 <= i < s.len() && 0 <= j < s.len() && i != j implies s[i]
        != s[j] by {
        precedes_is_irreflexive(s[i]);
        if i < j {
        } else {
        }
    }
    s.unique_seq_to_set();
    vstd::seq_lib::seq_to_set_is_finite(s);
}

/// The texts of `s` for which `p` holds, in their order.
spec fn matching(s: Seq<Text>, p: spec_fn(Text) -> bool) -> Seq<Text>
    decreases s.len(),
{
    if s.len() == 0 {
        s
    } else if p(s.last()) {
        matching(s.drop_last(), p).push(s.last())
    } else {
        matching(s.drop_last(), p)
    }
}

proof fn matching_of_ascending(s: Seq<Text>, p: spec_fn(Text) -> bool)
    requires
        ascending(s),
    ensures
        ascending(matching(s, p)),
        matching(s, p).to_set() == s.to_set().filter(p),
        matching(s, p).len() == s.to_set().filter(p).len(),
    decreases s.len(),
{
    let out = matching(s, p);
    if s.len() == 0 {
        assert(out.to_set() =~= s.to_set().filter(p));
        ascending_has_no_duplicates(out);
    } else {
        let front = s.drop_last();
        let last = s.last();
        assert(ascending(front));
        matching_of_ascending(front, p);
        let kept = matching(front, p);
        assert(s =~= front.push(last));
        front.lemma_push_to_set_commute(last);
        if p(last) {
            kept.lemma_push_to_set_commute(last);
            assert forall|i: int, j: int| 0 <= i < j < out.len() implies precedes(
                #[trigger] out[i],
                #[trigger] out[j],
            ) by {
                if j < kept.len() {
                    assert(kept[i] == out[i] && kept[j] == out[j]);
                } else {
                    assert(kept.to_set().contains(kept[i]));
                    assert(front.to_set().contains(kept[i]));
                    let m = choose|m: int| 0 <= m < front.len() && front[m] == kept[i];
                    assert(precedes(s[m], s[s.len() - 1]));
                }
            }
        }
        assert(out.to_set() =~= s.to_set().filter(p));
        ascending_has_no_duplicates(out);
    }
}

impl TextSet {
    #[verifier::type_invariant]
    closed spec fn wf(&self) -> bool {
        ascending(self.items.deep_view())
    }

    /// The empty set.
    pub fn new() -> (out: Self)
        ensures
            out@ == Set::<Text>::empty(),
    {
        let out = TextSet { items: Vec::new() };
        assert(out.items.deep_view() =~= Seq::<Text>::empty());
        assert(out@ =~= Set::<Text>::empty());
        out
    }

    /// The set of the texts in `list`.
    pub fn of(list: &Vec<String>) -> (out: Self)
        ensures
            out@ == list.deep_view().to_set(),
    {
        let items = distinct_of(list);
        proof {
            distinct_is_ascending(list.deep_view());
            assert(items.deep_view().to_set() =~= list.deep_view().to_set()) by {
                assert forall|t: Text|
                    items.deep_view().to_set().contains(t) == list.deep_view().to_set().contains(
                        t,
                    ) by {
                    assert(distinct(list.deep_view()).contains(t) <==> list.deep_view().contains(t));
                }
            }
        }
        TextSet { items }
    }

    /// How many texts the set holds.
    pub fn len(&self) -> (n: usize)
        ensures
            n == self@.len(),
            self@.finite(),
    {
        proof {
            use_type_invariant(self);
            ascending_has_no_duplicates(self.items.deep_view());
        }
        self.items.len()
    }

    /// Whether the set holds `t`.
    pub fn contains(&self, t: &str) -> (r: bool)
        ensures
            r == self@.contains(t@),
    {
        is_listed(&self.items, t)
    }

    /// Puts `t` into the set; says whether it was not there before.
    pub fn insert(&mut self, t: &str) -> (added: bool)
        ensures
            final(self)@ == old(self)@.insert(t@),
            added == !old(self)@.contains(t@),
    {
        proof {
            use_type_invariant(&*self);
        }
        let ghost before = self.items.deep_view();
        let added = !self.contains(t);
        let ghost grown = with_text(before, t@);
        proof {
            with_text_keeps(before, t@);
            assert(grown.to_set() =~= before.to_set().insert(t@)) by {
                assert forall|u: Text|
                    grown.to_set().contains(u) == before.to_set().insert(t@).contains(u) by {
                    assert(with_text(before, t@).contains(u) <==> (before.contains(u) || u == t@));
                }
            }
        }
        let mut items = copies(&self.items);
        add_text(&mut items, t);
        *self = TextSet { items };
        added
    }

    /// How many texts of the set `test` accepts.
    pub(crate) fn count_where<F: Fn(&str) -> bool>(&self, test: F, Ghost(p): Ghost<
        spec_fn(Text) -> bool,
    >) -> (n: usize)
        requires
            forall|s: &str| call_requires(test, (s,)),
            forall|s: &str, r: bool| call_ensures(test, (s,), r) ==> r == p(s@),
        ensures
            n == self@.filter(p).len(),
            n <= self@.len(),
    {
        let ghost all = self.items.deep_view();
        let mut n: usize = 0;
        let mut i: usize = 0;
        assert(matching(all.take(0), p) =~= Seq::<Text>::empty());
        while i < self.items.len()
            invariant
                all == self.items.deep_view(),
                i <= self.items@.len(),
                n <= i,
                n == matching(all.take(i as int), p).len(),
                forall|s: &str| call_requires(test, (s,)),
                forall|s: &str, r: bool| call_ensures(test, (s,), r) ==> r == p(s@),
            decreases self.items.len() - i,
        {
            assert(all.take(i + 1).drop_last() =~= all.take(i as int));
            assert(all.take(i + 1).last() == self.items@[i as int]@);
            if test(self.items[i].as_str()) {
                n = n + 1;
            }
            i = i + 1;
        }
        assert(all.take(i as int) =~= all);
        proof {
            use_type_invariant(self);
            matching_of_ascending(all, p);
            ascending_has_no_duplicates(all);
        }
        n
    }

    /// The texts of the set that `test` accepts.
    pub(crate) fn keep_where<F: Fn(&str) -> bool>(&self, test: F, Ghost(p): Ghost<
        spec_fn(Text) -> bool,
    >) -> (out: Self)
        requires
            forall|s: &str| call_requires(test, (s,)),
            forall|s: &str, r: bool| call_ensures(test, (s,), r) ==> r == p(s@),
        ensures
            out@ == self@.filter(p),
    {
        let ghost all = self.items.deep_view();
        let mut items: Vec<String> = Vec::new();
        let mut i: usize = 0;
        assert(matching(all.take(0), p) =~= Seq::<Text>::empty());
        assert(items.deep_view() =~= Seq::<Text>::empty());
        while i < self.items.len()
            invariant
                all == self.items.deep_view(),
                i <= self.items@.len(),
                items.deep_view() == matching(all.take(i as int), p),
                forall|s: &str| call_requires(test, (s,)),
                forall|s: &str, r: bool| call_ensures(test, (s,), r) ==> r == p(s@),
            decreases self.items.len() - i,
        {
            assert(all.take(i + 1).drop_last() =~= all.take(i as int));
            assert(all.take(i + 1).last() == self.items@[i as int]@);
            if test(self.items[i].as_str()) {
                let ghost before = items.deep_view();
                items.push(self.items[i].clone());
                assert(items.deep_view() =~= before.push(self.items@[i as int]@));
            }
            i = i + 1;
        }
        assert(all.take(i as int) =~= all);
        proof {
            use_type_invariant(self);
            matching_of_ascending(all, p);
        }
        TextSet { items }
    }

    /// Takes `t` out of the set; says whether it was there.
    pub fn remove(&mut self, t: &str) -> (removed: bool)
        ensures
            final(self)@ == old(self)@.remove(t@),
            removed == old(self)@.contains(t@),
    {
        let removed = self.contains(t);
        let other = |u: &str| -> (r: bool)
            ensures
                r == (u@ != t@),
            { !same(u, t) };
        let rest = self.keep_where(other, Ghost(|u: Text| u != t@));
        assert(rest@ =~= self@.remove(t@));
        *self = rest;
        removed
    }

    /// How many texts two sets have in common.
    pub fn shared_with(&self, other: &Self) -> (n: usize)
        ensures
            n == self@.intersect(other@).len(),
            n <= self@.len(),
    {
        let test = |t: &str| -> (r: bool)
            ensures
                r == other@.contains(t@),
            { other.contains(t) };
        let n = self.count_where(test, Ghost(|t: Text| other@.contains(t)));
        assert(self@.filter(|t: Text| other@.contains(t)) =~= self@.intersect(other@));
        n
    }

    /// Puts every text of `other` into this set.
    pub fn take_in(&mut self, other: &Self)
        ensures
            final(self)@ == old(self)@.union(other@),
    {
        let ghost before = self@;
        let texts = other.items();
        let ghost all = texts.deep_view();
        let mut i: usize = 0;
        assert(before.union(all.take(0).to_set()) =~= before);
        while i < texts.len()
            invariant
                all == texts.deep_view(),
                i <= texts@.len(),
                self@ == before.union(all.take(i as int).to_set()),
            decreases texts.len() - i,
        {
            self.insert(texts[i].as_str());
            proof {
                let front = all.take(i as int);
                assert(all.take(i + 1) =~= front.push(all[i as int]));
                assert(front.push(all[i as int]).to_set() =~= front.to_set().insert(all[i as int]))
                    by {
                    front.lemma_push_to_set_commute(all[i as int]);
                }
                assert(self@ =~= before.union(all.take(i + 1).to_set()));
            }
            i = i + 1;
        }
        assert(all.take(i as int) =~= all);
    }

    /// The texts of the set in ascending order.
    pub fn items(&self) -> (out: &Vec<String>)
        ensures
            ascending(out.deep_view()),
            out.deep_view().to_set() == self@,
            out@.len() == self@.len(),
    {
        proof {
            use_type_invariant(self);
            ascending_has_no_duplicates(self.items.deep_view());
        }
        &self.items
    }
}

impl Clone for TextSet {
    fn clone(&self) -> (out: Self)
        ensures
            out@ == self@,
    {
        proof {
            use_type_invariant(self);
        }
        let items = copies(&self.items);
        TextSet { items }
    }
}

} // verus!
