//! A map whose keys are texts.

use crate::order::ascending;
use crate::text::{
    is_before, precedes, precedes_is_irreflexive, precedes_is_total, precedes_is_transitive, same,
    Text,
};
use vstd::prelude::*;

verus! {

/// A map from texts, held in ascending order of its keys.
#[derive(Debug, PartialEq)]
pub struct TextMap<T> {
    entries: Vec<(String, T)>,
}

/// The keys of `entries`.
spec fn keys<T>(entries: Seq<(String, T)>) -> Seq<Text> {
    Seq::new(entries.len(), |i: int| entries[i].0@)
}

/// Where `entries` hold the key `k`.
spec fn place_of<T>(entries: Seq<(String, T)>, k: Text) -> int {
    choose|i: int| 0 <= i < entries.len() && #[trigger] entries[i].0@ == k
}

/// What `entries` hold under the key `k`.
spec fn value_under<T: DeepView>(entries: Seq<(String, T)>, k: Text) -> T::V {
    entries[place_of(entries, k)].1.deep_view()
}

spec fn as_map<T: DeepView>(entries: Seq<(String, T)>) -> Map<Text, T::V> {
    Map::new(|k: Text| keys(entries).contains(k), |k: Text| value_under(entries, k))
}

impl<T: DeepView> View for TextMap<T> {
    type V = Map<Text, T::V>;

    closed spec fn view(&self) -> Map<Text, T::V> {
        as_map(self.entries@)
    }
}

proof fn as_map_at<T: DeepView>(entries: Seq<(String, T)>, i: int)
    requires
        ascending(keys(entries)),
        0 <= i < entries.len(),
    ensures
        as_map(entries).dom().contains(entries[i].0@),
        as_map(entries)[entries[i].0@] == entries[i].1.deep_view(),
{
    let k = entries[i].0@;
    assert(keys(entries)[i] == k);
    let j = place_of(entries, k);
    assert(0 <= j < entries.len() && entries[j].0@ == k);
    if i < j {
        assert(precedes(keys(entries)[i], keys(entries)[j]));
        precedes_is_irreflexive(k);
    } else if j < i {
        assert(precedes(keys(entries)[j], keys(entries)[i]));
        precedes_is_irreflexive(k);
    }
}

proof fn keys_around<T>(entries: Seq<(String, T)>, k: Text, at: int)
    requires
        ascending(keys(entries)),
        0 <= at <= entries.len(),
        forall|j: int| 0 <= j < at ==> precedes(#[trigger] keys(entries)[j], k),
        at < entries.len() ==> precedes(k, keys(entries)[at]),
    ensures
        !keys(entries).contains(k),
        forall|j: int| at <= j < entries.len() ==> precedes(k, #[trigger] keys(entries)[j]),
{
    let ks = keys(entries);
    assert forall|j: int| at <= j < entries.len() implies precedes(k, #[trigger] ks[j]) by {
        if j > at {
            assert(precedes(ks[at], ks[j]));
            precedes_is_transitive(k, ks[at], ks[j]);
        }
    }
    if ks.contains(k) {
        let j = choose|j: int| 0 <= j < ks.len() && ks[j] == k;
        precedes_is_irreflexive(k);
        if j < at {
            assert(precedes(ks[j], k));
        } else {
            assert(precedes(k, ks[j]));
        }
    }
}

proof fn map_by_keys<T: DeepView>(entries: Seq<(String, T)>, m: Map<Text, T::V>)
    requires
        ascending(keys(entries)),
        forall|i: int|
            0 <= i < entries.len() ==> m.dom().contains(#[trigger] entries[i].0@)
                && m[entries[i].0@] == entries[i].1.deep_view(),
        forall|k: Text| #[trigger] m.dom().contains(k) ==> keys(entries).contains(k),
    ensures
        as_map(entries) == m,
{
    let own = as_map(entries);
    assert forall|k: Text| #[trigger] own.dom().contains(k) implies m.dom().contains(k) && own[k]
        == m[k] by {
        let i = choose|i: int| 0 <= i < entries.len() && keys(entries)[i] == k;
        assert(entries[i].0@ == k);
        as_map_at(entries, i);
    }
    assert(own =~= m);
}

impl<T> TextMap<T> {
    #[verifier::type_invariant]
    closed spec fn wf(&self) -> bool {
        ascending(keys(self.entries@))
    }
}

impl<T: DeepView> TextMap<T> {
    /// The empty map.
    pub fn new() -> (out: Self)
        ensures
            out@ == Map::<Text, T::V>::empty(),
    {
        let entries: Vec<(String, T)> = Vec::new();
        proof {
            map_by_keys(entries@, Map::<Text, T::V>::empty());
        }
        TextMap { entries }
    }

    /// What the map holds under `key`.
    pub fn get(&self, key: &str) -> (out: Option<&T>)
        ensures
            match out {
                Some(v) => self@.dom().contains(key@) && self@[key@] == v.deep_view(),
                None => !self@.dom().contains(key@),
            },
    {
        let mut i: usize = 0;
        while i < self.entries.len()
            invariant
                i <= self.entries@.len(),
                forall|j: int| 0 <= j < i ==> #[trigger] self.entries@[j].0@ != key@,
            decreases self.entries.len() - i,
        {
            if same(self.entries[i].0.as_str(), key) {
                proof {
                    use_type_invariant(self);
                    as_map_at(self.entries@, i as int);
                }
                return Some(&self.entries[i].1);
            }
            i = i + 1;
        }
        assert(!keys(self.entries@).contains(key@)) by {
            if keys(self.entries@).contains(key@) {
                let j = choose|j: int|
                    0 <= j < self.entries@.len() && keys(self.entries@)[j] == key@;
                assert(self.entries@[j].0@ == key@);
            }
        }
        None
    }

    /// The entries in ascending order of their keys.
    pub fn entries(&self) -> (out: &Vec<(String, T)>)
        ensures
            forall|k: Text| #[trigger]
                self@.dom().contains(k) <==> exists|i: int|
                    0 <= i < out@.len() && #[trigger] out@[i].0@ == k,
            forall|i: int|
                0 <= i < out@.len() ==> self@[(#[trigger] out@[i]).0@] == out@[i].1.deep_view(),
            forall|i: int, j: int|
                0 <= i < j < out@.len() ==> precedes(
                    (#[trigger] out@[i]).0@,
                    (#[trigger] out@[j]).0@,
                ),
    {
        proof {
            use_type_invariant(self);
            let entries = self.entries@;
            assert forall|k: Text| #[trigger] self@.dom().contains(k) <==> exists|i: int|
                0 <= i < entries.len() && #[trigger] entries[i].0@ == k by {
                if self@.dom().contains(k) {
                    let i = choose|i: int| 0 <= i < entries.len() && keys(entries)[i] == k;
                    assert(entries[i].0@ == k);
                }
                if exists|i: int| 0 <= i < entries.len() && #[trigger] entries[i].0@ == k {
                    let i = choose|i: int| 0 <= i < entries.len() && #[trigger] entries[i].0@ == k;
                    assert(keys(entries)[i] == k);
                }
            }
            assert forall|i: int| 0 <= i < entries.len() implies self@[(
            #[trigger] entries[i]).0@] == entries[i].1.deep_view() by {
                as_map_at(entries, i);
            }
            assert forall|i: int, j: int| 0 <= i < j < entries.len() implies precedes(
                (#[trigger] entries[i]).0@,
                (#[trigger] entries[j]).0@,
            ) by {
                assert(precedes(keys(entries)[i], keys(entries)[j]));
            }
        }
        &self.entries
    }

    /// The map without what it holds under `key`.
    pub fn without(self, key: &str) -> (out: Self)
        ensures
            out@ == self@.remove(key@),
    {
        proof {
            use_type_invariant(&self);
        }
        let ghost before = self.entries@;
        let ghost m = self@;
        let mut entries = self.entries;
        let mut i: usize = 0;
        while i < entries.len()
            invariant
                entries@ == before,
                ascending(keys(before)),
                m == as_map(before),
                m == self@,
                i <= entries@.len(),
                forall|j: int| 0 <= j < i ==> #[trigger] before[j].0@ != key@,
            decreases entries.len() - i,
        {
            if same(entries[i].0.as_str(), key) {
                let _ = entries.remove(i);
                let ghost after = entries@;
                proof {
                    assert(after =~= before.remove(i as int));
                    assert forall|a: int, b: int| 0 <= a < b < after.len() implies precedes(
                        #[trigger] keys(after)[a],
                        #[trigger] keys(after)[b],
                    ) by {
                        let x = if a < i {
                            a
                        } else {
                            a + 1
                        };
                        let y = if b < i {
                            b
                        } else {
                            b + 1
                        };
                        assert(precedes(keys(before)[x], keys(before)[y]));
                    }
                    assert forall|a: int| 0 <= a < after.len() implies m.remove(
                        key@,
                    ).dom().contains(#[trigger] after[a].0@) && m.remove(key@)[after[a].0@]
                        == after[a].1.deep_view() by {
                        let x = if a < i {
                            a
                        } else {
                            a + 1
                        };
                        as_map_at(before, x);
                        precedes_is_irreflexive(key@);
                        if x < i {
                            assert(precedes(keys(before)[x], keys(before)[i as int]));
                        } else {
                            assert(precedes(keys(before)[i as int], keys(before)[x]));
                        }
                    }
                    assert forall|k: Text| #[trigger]
                        m.remove(key@).dom().contains(k) implies keys(after).contains(k) by {
                        let x = choose|x: int| 0 <= x < before.len() && keys(before)[x] == k;
                        if x < i {
                            assert(keys(after)[x] == k);
                        } else {
                            assert(keys(after)[x - 1] == k);
                        }
                    }
                    map_by_keys(after, m.remove(key@));
                }
                return TextMap { entries };
            }
            i = i + 1;
        }
        proof {
            assert(!m.dom().contains(key@)) by {
                if keys(before).contains(key@) {
                    let j = choose|j: int| 0 <= j < before.len() && keys(before)[j] == key@;
                    assert(before[j].0@ == key@);
                }
            }
            assert(m.remove(key@) =~= m);
        }
        TextMap { entries }
    }

    /// The map with `value` under `key`.
    pub fn with(self, key: &str, value: T) -> (out: Self)
        ensures
            out@ == self@.insert(key@, value.deep_view()),
    {
        let ghost m = self@;
        let rest = self.without(key);
        proof {
            use_type_invariant(&rest);
        }
        let ghost before = rest.entries@;
        let ghost n = rest@;
        let mut entries = rest.entries;
        let mut at: usize = 0;
        while at < entries.len() && is_before(entries[at].0.as_str(), key)
            invariant
                entries@ == before,
                at <= entries@.len(),
                forall|j: int| 0 <= j < at ==> precedes(#[trigger] keys(before)[j], key@),
            decreases entries.len() - at,
        {
            assert(keys(before)[at as int] == before[at as int].0@);
            at = at + 1;
        }
        proof {
            if at < before.len() {
                let other = before[at as int].0@;
                assert(keys(before)[at as int] == other);
                as_map_at(before, at as int);
                precedes_is_total(key@, other);
            }
            keys_around(before, key@, at as int);
        }
        let ghost v = value.deep_view();
        entries.insert(at, (key.to_owned(), value));
        let ghost after = entries@;
        proof {
            assert forall|a: int, b: int| 0 <= a < b < after.len() implies precedes(
                #[trigger] keys(after)[a],
                #[trigger] keys(after)[b],
            ) by {
                if a != at && b != at {
                    let x = if a < at {
                        a
                    } else {
                        a - 1
                    };
                    let y = if b < at {
                        b
                    } else {
                        b - 1
                    };
                    assert(precedes(keys(before)[x], keys(before)[y]));
                } else if a == at {
                    assert(precedes(key@, keys(before)[b - 1]));
                } else {
                    assert(precedes(keys(before)[a], key@));
                }
            }
            let want = m.insert(key@, v);
            assert(want =~= n.insert(key@, v));
            assert forall|a: int| 0 <= a < after.len() implies want.dom().contains(
                #[trigger] after[a].0@,
            ) && want[after[a].0@] == after[a].1.deep_view() by {
                if a != at {
                    let x = if a < at {
                        a
                    } else {
                        a - 1
                    };
                    as_map_at(before, x);
                    assert(keys(before)[x] == after[a].0@);
                }
            }
            assert forall|k: Text| #[trigger] want.dom().contains(k) implies keys(
                after,
            ).contains(k) by {
                if k == key@ {
                    assert(keys(after)[at as int] == k);
                } else {
                    assert(n.dom().contains(k));
                    let x = choose|x: int| 0 <= x < before.len() && keys(before)[x] == k;
                    if x < at {
                        assert(keys(after)[x] == k);
                    } else {
                        assert(keys(after)[x + 1] == k);
                    }
                }
            }
            map_by_keys(after, want);
        }
        TextMap { entries }
    }
}

} // verus!
