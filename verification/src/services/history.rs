//! Recently traced key values, recently opened accounts and the rules for
//! failed steps, remembered per account.
//!
//! Correlation ids are long, opaque and impossible to retype, so losing the
//! last few on restart makes the application markedly worse to use.

use crate::services::az::{AccountView, CosmosAccount};
use crate::services::document::{ErrorRule, RuleView};
use crate::text::{same, Text};
use crate::text_map::TextMap;
use vstd::prelude::*;

verus! {

/// Enough to get back to what you were just looking at, few enough to stay a
/// single row of chips.
pub const MAX_ENTRIES: usize = 5;

/// Recently opened accounts. Discovery needs a scan of every subscription, so
/// remembering the last few is the difference between reopening an account
/// instantly and waiting for the list.
pub const MAX_ACCOUNTS: usize = 5;

/// A value that was traced.
#[derive(Debug, PartialEq, Eq)]
pub struct Entry {
    pub value: String,
    /// The field it was traced on, so a chip can say what the value means.
    pub key: String,
}

/// A value that was traced, as contracts speak of it.
pub struct EntryView {
    pub value: Text,
    pub key: Text,
}

impl View for Entry {
    type V = EntryView;

    open spec fn view(&self) -> EntryView {
        EntryView { value: self.value@, key: self.key@ }
    }
}

impl DeepView for Entry {
    type V = EntryView;

    open spec fn deep_view(&self) -> EntryView {
        self@
    }
}

impl Clone for Entry {
    fn clone(&self) -> (out: Self)
        ensures
            out@ == self@,
    {
        Entry { value: self.value.clone(), key: self.key.clone() }
    }
}

// ── Lists of recent things ───────────────────────────────────────────────

/// Something that is listed among the most recent of its kind.
pub trait Recent: DeepView + Sized {
    /// What tells one of its kind from another.
    spec fn identity(v: Self::V) -> Text;

    /// What tells this one from others.
    fn id(&self) -> (s: &str)
        ensures
            s@ == Self::identity(self.deep_view()),
    ;

    /// A copy.
    fn copy(&self) -> (out: Self)
        ensures
            out.deep_view() == self.deep_view(),
    ;
}

impl Recent for Entry {
    open spec fn identity(v: EntryView) -> Text {
        v.value
    }

    fn id(&self) -> (s: &str) {
        self.value.as_str()
    }

    fn copy(&self) -> (out: Self) {
        self.clone()
    }
}

/// Two subscriptions can hold accounts with the same display name, and they are
/// not the same account: only the endpoint identifies one.
impl Recent for CosmosAccount {
    open spec fn identity(v: AccountView) -> Text {
        v.endpoint
    }

    fn id(&self) -> (s: &str) {
        self.endpoint.as_str()
    }

    fn copy(&self) -> (out: Self) {
        self.clone()
    }
}

/// `list` without those that are `id`.
pub open spec fn others<V>(list: Seq<V>, identity: spec_fn(V) -> Text, id: Text) -> Seq<V>
    decreases list.len(),
{
    if list.len() == 0 {
        list
    } else if identity(list.last()) == id {
        others(list.drop_last(), identity, id)
    } else {
        others(list.drop_last(), identity, id).push(list.last())
    }
}

/// `list` with `x` in front, only once, and no longer than `most`.
pub open spec fn recent_first<V>(
    list: Seq<V>,
    x: V,
    identity: spec_fn(V) -> Text,
    most: nat,
) -> Seq<V> {
    let all = seq![x] + others(list, identity, identity(x));
    if all.len() <= most {
        all
    } else {
        all.take(most as int)
    }
}

/// What tells traced values from each other.
pub open spec fn by_value() -> spec_fn(EntryView) -> Text {
    |e: EntryView| e.value
}

/// What tells accounts from each other.
pub open spec fn by_endpoint() -> spec_fn(AccountView) -> Text {
    |a: AccountView| a.endpoint
}

fn leave_out<T: Recent>(list: &Vec<T>, id: &str, Ghost(identity): Ghost<
    spec_fn(T::V) -> Text,
>) -> (out: Vec<T>)
    requires
        forall|v: T::V| #[trigger] identity(v) == T::identity(v),
    ensures
        out.deep_view() == others(list.deep_view(), identity, id@),
{
    let ghost all = list.deep_view();
    let mut kept: Vec<T> = Vec::new();
    let mut i: usize = 0;
    assert(kept.deep_view() =~= others(all.take(0), identity, id@));
    while i < list.len()
        invariant
            forall|v: T::V| #[trigger] identity(v) == T::identity(v),
            all == list.deep_view(),
            i <= list@.len(),
            kept.deep_view() == others(all.take(i as int), identity, id@),
        decreases list.len() - i,
    {
        assert(all.take(i + 1).drop_last() =~= all.take(i as int));
        assert(all.take(i + 1).last() == list@[i as int].deep_view());
        if !same(list[i].id(), id) {
            let ghost before = kept.deep_view();
            let one = list[i].copy();
            let ghost view = one.deep_view();
            kept.push(one);
            assert(kept.deep_view() =~= before.push(view));
        }
        i = i + 1;
    }
    assert(all.take(i as int) =~= all);
    kept
}

fn put_first<T: Recent>(list: &Vec<T>, x: T, most: usize, Ghost(identity): Ghost<
    spec_fn(T::V) -> Text,
>) -> (out: Vec<T>)
    requires
        most > 0,
        forall|v: T::V| #[trigger] identity(v) == T::identity(v),
    ensures
        out.deep_view() == recent_first(
            list.deep_view(),
            x.deep_view(),
            identity,
            most as nat,
        ),
{
    let ghost all = list.deep_view();
    let ghost first = x.deep_view();
    let ghost rest = others(all, identity, identity(first));
    let ghost whole = seq![first] + rest;
    let kept = leave_out(list, x.id(), Ghost(identity));
    let mut out: Vec<T> = Vec::new();
    out.push(x);
    let mut k: usize = 0;
    assert(out.deep_view() =~= whole.take(1));
    while k < kept.len() && out.len() < most
        invariant
            kept.deep_view() == rest,
            whole == seq![first] + rest,
            k <= kept@.len(),
            out@.len() == k + 1,
            out@.len() <= most,
            out.deep_view() == whole.take(k + 1),
        decreases kept.len() - k,
    {
        let ghost before = out.deep_view();
        let one = kept[k].copy();
        let ghost view = one.deep_view();
        assert(view == kept.deep_view()[k as int]);
        out.push(one);
        assert(out.deep_view() =~= before.push(view));
        assert(whole.take(k + 2) =~= whole.take(k + 1).push(view));
        k = k + 1;
    }
    assert(whole.len() == kept@.len() + 1);
    if k == kept.len() {
        assert(whole.take(k + 1) =~= whole);
    }
    out
}

/// Most recent first, no duplicates, capped. Re-tracing a value moves it back
/// to the front rather than adding a second chip for it.
pub fn insert(list: &mut Vec<Entry>, entry: Entry)
    ensures
        final(list).deep_view() == recent_first(
            old(list).deep_view(),
            entry@,
            by_value(),
            MAX_ENTRIES as nat,
        ),
{
    *list = put_first(list, entry, MAX_ENTRIES, Ghost(by_value()));
}

/// Most recent first, no duplicates, capped, as `insert`.
pub fn insert_account(list: &mut Vec<CosmosAccount>, account: CosmosAccount)
    ensures
        final(list).deep_view() == recent_first(
            old(list).deep_view(),
            account@,
            by_endpoint(),
            MAX_ACCOUNTS as nat,
        ),
{
    *list = put_first(list, account, MAX_ACCOUNTS, Ghost(by_endpoint()));
}

fn copy_all<T: Recent>(list: &Vec<T>) -> (out: Vec<T>)
    ensures
        out.deep_view() == list.deep_view(),
{
    let mut out: Vec<T> = Vec::new();
    let mut i: usize = 0;
    while i < list.len()
        invariant
            i <= list@.len(),
            out@.len() == i,
            forall|j: int| 0 <= j < i ==> (#[trigger] out@[j]).deep_view() == list@[j].deep_view(),
        decreases list.len() - i,
    {
        out.push(list[i].copy());
        i = i + 1;
    }
    assert(out.deep_view() =~= list.deep_view());
    out
}

fn copy_rules(list: &Vec<ErrorRule>) -> (out: Vec<ErrorRule>)
    ensures
        out.deep_view() == list.deep_view(),
{
    let mut out: Vec<ErrorRule> = Vec::new();
    let mut i: usize = 0;
    while i < list.len()
        invariant
            i <= list@.len(),
            out@.len() == i,
            forall|j: int| 0 <= j < i ==> (#[trigger] out@[j])@ == list@[j]@,
        decreases list.len() - i,
    {
        out.push(list[i].clone());
        i = i + 1;
    }
    assert(out.deep_view() =~= list.deep_view());
    out
}

// ── What is remembered ───────────────────────────────────────────────────

/// Everything that is remembered.
#[derive(Debug, PartialEq)]
pub struct Store {
    /// The traced values, by account endpoint: unique, unlike the display name.
    pub accounts: TextMap<Vec<Entry>>,
    /// Most recently opened first.
    pub recent_accounts: Vec<CosmosAccount>,
    /// What counts as a failed step, by account endpoint. This is domain
    /// knowledge the user taught the application, so it must outlive the
    /// session that taught it.
    pub error_rules: TextMap<Vec<ErrorRule>>,
}

/// Everything that is remembered, as contracts speak of it.
pub struct StoreView {
    pub accounts: Map<Text, Seq<EntryView>>,
    pub recent_accounts: Seq<AccountView>,
    pub error_rules: Map<Text, Seq<RuleView>>,
}

impl View for Store {
    type V = StoreView;

    open spec fn view(&self) -> StoreView {
        StoreView {
            accounts: self.accounts@,
            recent_accounts: self.recent_accounts.deep_view(),
            error_rules: self.error_rules@,
        }
    }
}

impl Default for Store {
    fn default() -> (out: Self)
        ensures
            out@ == (StoreView {
                accounts: Map::empty(),
                recent_accounts: Seq::empty(),
                error_rules: Map::empty(),
            }),
    {
        let recent_accounts: Vec<CosmosAccount> = Vec::new();
        assert(recent_accounts.deep_view() =~= Seq::<AccountView>::empty());
        Store { accounts: TextMap::new(), recent_accounts, error_rules: TextMap::new() }
    }
}

/// What `map` lists for `account`: nothing, if it has no list.
pub open spec fn listed<V>(map: Map<Text, Seq<V>>, account: Text) -> Seq<V> {
    if map.dom().contains(account) {
        map[account]
    } else {
        Seq::empty()
    }
}

/// The values traced in an account, most recent first.
pub fn load(store: &Store, account: &str) -> (out: Vec<Entry>)
    ensures
        out.deep_view() == listed(store@.accounts, account@),
{
    match store.accounts.get(account) {
        Some(list) => copy_all(list),
        None => {
            let none: Vec<Entry> = Vec::new();
            assert(none.deep_view() =~= Seq::<EntryView>::empty());
            none
        },
    }
}

/// Records a value as the most recent, returning the updated list.
pub fn record(store: Store, account: &str, entry: Entry) -> (out: (Store, Vec<Entry>))
    ensures
        ({
            let list = recent_first(
                listed(store@.accounts, account@),
                entry@,
                by_value(),
                MAX_ENTRIES as nat,
            );
            &&& out.1.deep_view() == list
            &&& out.0@ == (StoreView {
                accounts: store@.accounts.insert(account@, list),
                ..store@
            })
        }),
{
    let mut list = load(&store, account);
    insert(&mut list, entry);
    let updated = copy_all(&list);
    let accounts = store.accounts.with(account, list);
    (
        Store {
            accounts,
            recent_accounts: store.recent_accounts,
            error_rules: store.error_rules,
        },
        updated,
    )
}

/// Forgets the values traced in an account, returning the list that is left.
pub fn clear(store: Store, account: &str) -> (out: (Store, Vec<Entry>))
    ensures
        out.1@.len() == 0,
        out.0@ == (StoreView { accounts: store@.accounts.remove(account@), ..store@ }),
{
    let accounts = store.accounts.without(account);
    (
        Store {
            accounts,
            recent_accounts: store.recent_accounts,
            error_rules: store.error_rules,
        },
        Vec::new(),
    )
}

/// The recently opened accounts, most recent first.
pub fn load_accounts(store: &Store) -> (out: Vec<CosmosAccount>)
    ensures
        out.deep_view() == store@.recent_accounts,
{
    copy_all(&store.recent_accounts)
}

/// Records an account as the most recently opened, returning the updated list.
pub fn record_account(store: Store, account: &CosmosAccount) -> (out: (Store, Vec<CosmosAccount>))
    ensures
        ({
            let list = recent_first(
                store@.recent_accounts,
                account@,
                by_endpoint(),
                MAX_ACCOUNTS as nat,
            );
            &&& out.1.deep_view() == list
            &&& out.0@ == (StoreView { recent_accounts: list, ..store@ })
        }),
{
    let mut list = copy_all(&store.recent_accounts);
    insert_account(&mut list, account.clone());
    let updated = copy_all(&list);
    (
        Store {
            accounts: store.accounts,
            recent_accounts: list,
            error_rules: store.error_rules,
        },
        updated,
    )
}

/// Forgets a recently opened account, returning the updated list.
pub fn forget_account(store: Store, endpoint: &str) -> (out: (Store, Vec<CosmosAccount>))
    ensures
        ({
            let list = others(store@.recent_accounts, by_endpoint(), endpoint@);
            &&& out.1.deep_view() == list
            &&& out.0@ == (StoreView { recent_accounts: list, ..store@ })
        }),
{
    let list = leave_out(&store.recent_accounts, endpoint, Ghost(by_endpoint()));
    let updated = copy_all(&list);
    (
        Store {
            accounts: store.accounts,
            recent_accounts: list,
            error_rules: store.error_rules,
        },
        updated,
    )
}

/// The rules for failed steps of an account.
pub fn load_rules(store: &Store, account: &str) -> (out: Vec<ErrorRule>)
    ensures
        out.deep_view() == listed(store@.error_rules, account@),
{
    match store.error_rules.get(account) {
        Some(list) => copy_rules(list),
        None => {
            let none: Vec<ErrorRule> = Vec::new();
            assert(none.deep_view() =~= Seq::<RuleView>::empty());
            none
        },
    }
}

/// Replaces the whole set: the caller owns the list and edits it in place.
pub fn save_rules(store: Store, account: &str, rules: &Vec<ErrorRule>) -> (out: Store)
    ensures
        out@ == (StoreView {
            error_rules: if rules@.len() == 0 {
                store@.error_rules.remove(account@)
            } else {
                store@.error_rules.insert(account@, rules.deep_view())
            },
            ..store@
        }),
{
    let error_rules = if rules.len() == 0 {
        store.error_rules.without(account)
    } else {
        store.error_rules.with(account, copy_rules(rules))
    };
    Store {
        accounts: store.accounts,
        recent_accounts: store.recent_accounts,
        error_rules,
    }
}

// ── What holds of everything that is remembered ──────────────────────────

/// Whether no two of `list` are the same one.
pub open spec fn all_differ<V>(list: Seq<V>, identity: spec_fn(V) -> Text) -> bool {
    forall|i: int, j: int|
        0 <= i < j < list.len() ==> identity(#[trigger] list[i]) != identity(#[trigger] list[j])
}

/// Leaving out an id leaves none of it, and everything else in its order.
pub proof fn others_are_the_rest<V>(list: Seq<V>, identity: spec_fn(V) -> Text, id: Text)
    ensures
        others(list, identity, id).len() <= list.len(),
        forall|i: int|
            0 <= i < others(list, identity, id).len() ==> identity(
                #[trigger] others(list, identity, id)[i],
            ) != id,
        forall|v: V| #[trigger]
            others(list, identity, id).contains(v) <==> list.contains(v) && identity(v) != id,
        all_differ(list, identity) ==> all_differ(others(list, identity, id), identity),
        (forall|i: int| 0 <= i < list.len() ==> identity(#[trigger] list[i]) != id) ==> others(
            list,
            identity,
            id,
        ) == list,
    decreases list.len(),
{
    let out = others(list, identity, id);
    if list.len() > 0 {
        let front = list.drop_last();
        let early = others(front, identity, id);
        others_are_the_rest(front, identity, id);
        assert(list =~= front.push(list.last()));
        assert forall|v: V| #[trigger] out.contains(v) <==> list.contains(v) && identity(v)
            != id by {
            if out.contains(v) {
                let k = choose|k: int| 0 <= k < out.len() && out[k] == v;
                if k < early.len() {
                    assert(early[k] == v);
                    assert(early.contains(v));
                    let m = choose|m: int| 0 <= m < front.len() && front[m] == v;
                    assert(list[m] == v);
                } else {
                    assert(list[list.len() - 1] == v);
                }
            }
            if list.contains(v) && identity(v) != id {
                let k = choose|k: int| 0 <= k < list.len() && list[k] == v;
                if k < front.len() {
                    assert(front[k] == v);
                    assert(early.contains(v));
                    let m = choose|m: int| 0 <= m < early.len() && early[m] == v;
                    assert(out[m] == v);
                } else {
                    assert(out[out.len() - 1] == v);
                }
            }
        }
        assert forall|i: int| 0 <= i < out.len() implies identity(#[trigger] out[i]) != id by {
            assert(out.contains(out[i]));
        }
        if all_differ(list, identity) {
            assert forall|i: int, j: int| 0 <= i < j < front.len() implies identity(
                #[trigger] front[i],
            ) != identity(#[trigger] front[j]) by {
                assert(list[i] == front[i] && list[j] == front[j]);
            }
            assert forall|i: int, j: int| 0 <= i < j < out.len() implies identity(
                #[trigger] out[i],
            ) != identity(#[trigger] out[j]) by {
                if j < early.len() {
                    assert(out[i] == early[i] && out[j] == early[j]);
                } else {
                    assert(early.contains(early[i]));
                    let m = choose|m: int| 0 <= m < front.len() && front[m] == early[i];
                    assert(identity(list[m]) != identity(list[list.len() - 1]));
                }
            }
        }
        if forall|i: int| 0 <= i < list.len() ==> identity(#[trigger] list[i]) != id {
            assert forall|i: int| 0 <= i < front.len() implies identity(#[trigger] front[i])
                != id by {
                assert(list[i] == front[i]);
            }
            assert(identity(list[list.len() - 1]) != id);
            assert(out =~= list);
        }
    }
}

/// Whatever was there before, the list of recent ones starts with the newest,
/// holds none twice and is never longer than it may be; recording the same one
/// again changes nothing.
pub proof fn recent_first_holds<V>(
    list: Seq<V>,
    x: V,
    identity: spec_fn(V) -> Text,
    most: nat,
)
    requires
        most > 0,
        all_differ(list, identity),
    ensures
        ({
            let out = recent_first(list, x, identity, most);
            &&& out.len() > 0
            &&& out[0] == x
            &&& out.len() <= most
            &&& all_differ(out, identity)
            &&& recent_first(out, x, identity, most) == out
        }),
{
    let id = identity(x);
    let rest = others(list, identity, id);
    let whole = seq![x] + rest;
    let out = recent_first(list, x, identity, most);
    others_are_the_rest(list, identity, id);
    assert forall|i: int, j: int| 0 <= i < j < whole.len() implies identity(#[trigger] whole[i])
        != identity(#[trigger] whole[j]) by {
        assert(whole[j] == rest[j - 1]);
        if i > 0 {
            assert(whole[i] == rest[i - 1]);
        }
    }
    assert forall|i: int, j: int| 0 <= i < j < out.len() implies identity(#[trigger] out[i])
        != identity(#[trigger] out[j]) by {
        assert(out[i] == whole[i] && out[j] == whole[j]);
    }
    let tail = out.drop_first();
    assert(out =~= seq![x] + tail);
    others_of_first(x, tail, identity, id);
    assert forall|i: int| 0 <= i < tail.len() implies identity(#[trigger] tail[i]) != id by {
        assert(tail[i] == out[i + 1]);
        assert(identity(out[0]) != identity(out[i + 1]));
    }
    others_are_the_rest(tail, identity, id);
    assert(seq![x] + others(out, identity, id) =~= out);
}

proof fn others_of_first<V>(x: V, tail: Seq<V>, identity: spec_fn(V) -> Text, id: Text)
    requires
        identity(x) == id,
    ensures
        others(seq![x] + tail, identity, id) == others(tail, identity, id),
    decreases tail.len(),
{
    let all = seq![x] + tail;
    if tail.len() == 0 {
        assert(all.drop_last() =~= Seq::<V>::empty());
        assert(all.last() == x);
        assert(tail =~= Seq::<V>::empty());
    } else {
        assert(all.drop_last() =~= seq![x] + tail.drop_last());
        others_of_first(x, tail.drop_last(), identity, id);
    }
}

/// What the most recent one pushes out is only ever the oldest: a list with
/// room keeps all the others.
pub proof fn recent_first_keeps<V>(
    list: Seq<V>,
    x: V,
    identity: spec_fn(V) -> Text,
    most: nat,
    v: V,
)
    requires
        list.len() < most,
        list.contains(v),
        identity(v) != identity(x),
    ensures
        recent_first(list, x, identity, most).contains(v),
{
    let rest = others(list, identity, identity(x));
    others_are_the_rest(list, identity, identity(x));
    assert(rest.contains(v));
    let k = choose|k: int| 0 <= k < rest.len() && rest[k] == v;
    let out = recent_first(list, x, identity, most);
    assert(out[k + 1] == v);
}

/// What is recorded for one account is there when that account is next opened,
/// and what other accounts have is untouched; so are the recent accounts and
/// the rules. Clearing forgets the values of that account alone.
pub proof fn recording_touches_one_account(
    store: StoreView,
    account: Text,
    entry: EntryView,
    other: Text,
)
    requires
        other != account,
    ensures
        ({
            let list = recent_first(
                listed(store.accounts, account),
                entry,
                by_value(),
                MAX_ENTRIES as nat,
            );
            let after = store.accounts.insert(account, list);
            let cleared = after.remove(account);
            &&& listed(after, account) == list
            &&& listed(after, other) == listed(store.accounts, other)
            &&& listed(cleared, account) == Seq::<EntryView>::empty()
            &&& listed(cleared, other) == listed(store.accounts, other)
        }),
{
}

/// The rules that are saved for an account are the rules that are loaded, also
/// when there are none, and other accounts keep theirs.
pub proof fn saved_rules_are_loaded(
    store: StoreView,
    account: Text,
    rules: Seq<RuleView>,
    other: Text,
)
    requires
        other != account,
    ensures
        ({
            let after = if rules.len() == 0 {
                store.error_rules.remove(account)
            } else {
                store.error_rules.insert(account, rules)
            };
            &&& listed(after, account) == rules
            &&& listed(after, other) == listed(store.error_rules, other)
        }),
{
    if rules.len() == 0 {
        assert(rules =~= Seq::<RuleView>::empty());
    }
}

/// Traced values are the same exactly when their texts are, whatever they were
/// traced on; accounts, when their endpoints are, whatever they are called.
pub proof fn recent_things_go_by_what_they_are(
    a: EntryView,
    b: EntryView,
    c: AccountView,
    d: AccountView,
)
    ensures
        by_value()(a) == by_value()(b) <==> a.value == b.value,
        by_endpoint()(c) == by_endpoint()(d) <==> c.endpoint == d.endpoint,
{
}

proof fn others_keep_their_order<V>(list: Seq<V>, identity: spec_fn(V) -> Text, id: Text)
    ensures
        others(list, identity, id) == list.filter(|v: V| identity(v) != id),
    decreases list.len(),
{
    reveal(Seq::filter);
    if list.len() > 0 {
        others_keep_their_order(list.drop_last(), identity, id);
    } else {
        assert(others(list, identity, id) =~= list.filter(|v: V| identity(v) != id));
    }
}

/// The newest comes first, and behind it the others in the order they had; where
/// there is no room for all, the oldest are dropped, and no more than need be.
pub proof fn oldest_are_forgotten<V>(list: Seq<V>, x: V, identity: spec_fn(V) -> Text, most: nat)
    requires
        most > 0,
    ensures
        ({
            let out = recent_first(list, x, identity, most);
            let rest = list.filter(|v: V| identity(v) != identity(x));
            &&& out.len() == (if 1 + rest.len() <= most {
                1 + rest.len()
            } else {
                most
            })
            &&& out[0] == x
            &&& forall|i: int| 1 <= i < out.len() ==> #[trigger] out[i] == rest[i - 1]
        }),
{
    let id = identity(x);
    others_keep_their_order(list, identity, id);
    let p = |v: V| identity(v) != id;
    let q = |v: V| identity(v) != identity(x);
    assert(p =~= q);
}

/// Five traced values are remembered for an account, and five accounts: no more,
/// and no fewer where there were five.
pub proof fn five_are_remembered(
    entries: Seq<EntryView>,
    entry: EntryView,
    accounts: Seq<AccountView>,
    account: AccountView,
)
    ensures
        ({
            let out = recent_first(entries, entry, by_value(), MAX_ENTRIES as nat);
            let rest = entries.filter(|e: EntryView| e.value != entry.value);
            out.len() == (if rest.len() < 4 {
                1 + rest.len()
            } else {
                5
            })
        }),
        ({
            let out = recent_first(accounts, account, by_endpoint(), MAX_ACCOUNTS as nat);
            let rest = accounts.filter(|a: AccountView| a.endpoint != account.endpoint);
            out.len() == (if rest.len() < 4 {
                1 + rest.len()
            } else {
                5
            })
        }),
{
    oldest_are_forgotten(entries, entry, by_value(), MAX_ENTRIES as nat);
    oldest_are_forgotten(accounts, account, by_endpoint(), MAX_ACCOUNTS as nat);
    let p = |e: EntryView| by_value()(e) != by_value()(entry);
    let q = |e: EntryView| e.value != entry.value;
    assert(p =~= q);
    let r = |a: AccountView| by_endpoint()(a) != by_endpoint()(account);
    let t = |a: AccountView| a.endpoint != account.endpoint;
    assert(r =~= t);
}

/// What is remembered of an account is what was put there, and nothing where
/// nothing was.
pub proof fn listed_is_what_is_there<V>(map: Map<Text, Seq<V>>, account: Text)
    ensures
        map.dom().contains(account) ==> listed(map, account) == map[account],
        !map.dom().contains(account) ==> listed(map, account).len() == 0,
{
}

} // verus!
