//! Signing in and picking an account.

use crate::services::az::{
    AccountScan, AccountView, AzLoginState, CosmosAccount, ScanView, SubscriptionError,
};
use crate::text::{same, Text};
use crate::text_set::TextSet;
use vstd::prelude::*;

verus! {

/// The subscriptions that `accounts` belong to.
pub open spec fn subscriptions_of(accounts: Seq<AccountView>) -> Set<Text>
    decreases accounts.len(),
{
    if accounts.len() == 0 {
        Set::empty()
    } else {
        subscriptions_of(accounts.drop_last()).insert(accounts.last().subscription_id)
    }
}

proof fn subscriptions_are_few(accounts: Seq<AccountView>)
    ensures
        subscriptions_of(accounts).finite(),
        subscriptions_of(accounts).len() <= accounts.len(),
    decreases accounts.len(),
{
    if accounts.len() > 0 {
        subscriptions_are_few(accounts.drop_last());
    }
}

/// How many subscriptions were looked at: every one either produced accounts or
/// produced an error, so the two together are what was actually looked at.
pub fn subscription_count(accounts: &Vec<CosmosAccount>, skipped: &Vec<SubscriptionError>) -> (n:
    usize)
    requires
        accounts@.len() + skipped@.len() <= usize::MAX,
    ensures
        n == subscriptions_of(accounts.deep_view()).len() + skipped@.len(),
{
    let ghost all = accounts.deep_view();
    let mut found = TextSet::new();
    let mut i: usize = 0;
    while i < accounts.len()
        invariant
            all == accounts.deep_view(),
            i <= accounts@.len(),
            found@ == subscriptions_of(all.take(i as int)),
        decreases accounts.len() - i,
    {
        assert(all.take(i + 1).drop_last() =~= all.take(i as int));
        assert(all.take(i + 1).last() == accounts@[i as int]@);
        found.insert(accounts[i].subscription_id.as_str());
        i = i + 1;
    }
    assert(all.take(i as int) =~= all);
    proof {
        subscriptions_are_few(all);
    }
    found.len() + skipped.len()
}

/// The first of `accounts` with that endpoint.
pub open spec fn account_at(accounts: Seq<AccountView>, endpoint: Text) -> Option<AccountView>
    decreases accounts.len(),
{
    if accounts.len() == 0 {
        None
    } else if accounts[0].endpoint == endpoint {
        Some(accounts[0])
    } else {
        account_at(accounts.drop_first(), endpoint)
    }
}

/// The account that the user picked. An account is known by its endpoint rather
/// than by its name: two subscriptions can hold accounts with the same display
/// name, and they are not the same account.
pub fn pick_account(accounts: &Vec<CosmosAccount>, endpoint: &str) -> (out: Option<CosmosAccount>)
    ensures
        out.deep_view() == account_at(accounts.deep_view(), endpoint@),
{
    let ghost all = accounts.deep_view();
    let mut i: usize = 0;
    assert(all.skip(0) =~= all);
    while i < accounts.len()
        invariant
            all == accounts.deep_view(),
            i <= accounts@.len(),
            account_at(all, endpoint@) == account_at(all.skip(i as int), endpoint@),
        decreases accounts.len() - i,
    {
        assert(all.skip(i as int)[0] == accounts@[i as int]@);
        assert(all.skip(i as int).drop_first() =~= all.skip(i + 1));
        if same(accounts[i].endpoint.as_str(), endpoint) {
            return Some(accounts[i].clone());
        }
        i = i + 1;
    }
    None
}

/// Signing in happens outside: how often it is asked whether it worked.
pub const LOGIN_CHECKS: u32 = 24;

/// How many seconds pass before each time it is asked.
pub const LOGIN_WAIT_SECS: u64 = 5;

/// What to do once it has been asked whether signing in worked.
#[derive(Debug, Clone, Copy, PartialEq, Eq, Structural)]
pub enum LoginWait {
    /// It worked.
    Stop,
    /// Wait and ask again.
    Again,
    /// It has been asked often enough.
    GiveUp,
}

/// What to do once it has been asked `tried` times whether signing in worked,
/// the last time with the answer `state`.
pub fn after_login_check(tried: u32, state: &AzLoginState) -> (next: LoginWait)
    ensures
        next == (if state@ is LoggedIn {
            LoginWait::Stop
        } else if tried < LOGIN_CHECKS {
            LoginWait::Again
        } else {
            LoginWait::GiveUp
        }),
{
    match state {
        AzLoginState::LoggedIn { .. } => LoginWait::Stop,
        _ => if tried < LOGIN_CHECKS {
            LoginWait::Again
        } else {
            LoginWait::GiveUp
        },
    }
}

/// What the screen says of the accounts. "Nothing found" and "nothing could be
/// read" are different claims: the first is only made when every subscription
/// actually answered.
#[derive(Debug, Clone, Copy, PartialEq, Eq, Structural)]
pub enum AccountList {
    Loading,
    /// The scan itself failed.
    Failed,
    /// Every subscription answered, and there is no account.
    NoneFound,
    /// There is no account, but some subscriptions could not be read.
    NoneRead,
    /// There are accounts to pick from.
    Accounts,
}

/// What the screen says of the accounts.
pub fn account_list(loading: bool, failed: bool, scan: &AccountScan) -> (out: AccountList)
    ensures
        out == (if loading {
            AccountList::Loading
        } else if failed {
            AccountList::Failed
        } else if scan@.accounts.len() > 0 {
            AccountList::Accounts
        } else if scan@.blind() {
            AccountList::NoneRead
        } else {
            AccountList::NoneFound
        }),
{
    if loading {
        AccountList::Loading
    } else if failed {
        AccountList::Failed
    } else if scan.accounts.len() > 0 {
        AccountList::Accounts
    } else if scan.blind() {
        AccountList::NoneRead
    } else {
        AccountList::NoneFound
    }
}

/// What is on screen of a finished scan: what it found, or why it failed. A
/// failed one leaves nothing of an earlier one.
pub fn after_scan(result: Result<AccountScan, String>) -> (out: (AccountScan, Option<String>))
    ensures
        match result {
            Ok(scan) => out.0@ == scan@ && out.1 is None,
            Err(e) => out.0@ == (ScanView { accounts: Seq::empty(), errors: Seq::empty() })
                && out.1 is Some && out.1->0@ == e@,
        },
{
    match result {
        Ok(scan) => (scan, None),
        Err(e) => (AccountScan::default(), Some(e)),
    }
}

/// The subscriptions of some accounts are those that one of them belongs to.
pub proof fn subscriptions_are_those_of_the_accounts(accounts: Seq<AccountView>, id: Text)
    ensures
        subscriptions_of(accounts).contains(id) <==> exists|i: int|
            0 <= i < accounts.len() && (#[trigger] accounts[i]).subscription_id == id,
    decreases accounts.len(),
{
    if accounts.len() > 0 {
        let front = accounts.drop_last();
        let last = accounts.len() - 1;
        subscriptions_are_those_of_the_accounts(front, id);
        assert(accounts[last] == accounts.last());
        if subscriptions_of(front).contains(id) {
            let i = choose|i: int|
                0 <= i < front.len() && (#[trigger] front[i]).subscription_id == id;
            assert(accounts[i] == front[i]);
        }
        if exists|i: int| 0 <= i < accounts.len() && (#[trigger] accounts[i]).subscription_id
            == id {
            let i = choose|i: int|
                0 <= i < accounts.len() && (#[trigger] accounts[i]).subscription_id == id;
            if i < last {
                assert(front[i] == accounts[i]);
            }
        }
    }
}

/// The account that is picked is the first with the endpoint; there is none
/// where no account has it.
pub proof fn picking_goes_by_endpoint(accounts: Seq<AccountView>, endpoint: Text, k: int)
    ensures
        0 <= k < accounts.len() && accounts[k].endpoint == endpoint && (forall|m: int|
            0 <= m < k ==> (#[trigger] accounts[m]).endpoint != endpoint) ==> account_at(
            accounts,
            endpoint,
        ) == Some(accounts[k]),
        (forall|m: int| 0 <= m < accounts.len() ==> (#[trigger] accounts[m]).endpoint != endpoint)
            ==> account_at(accounts, endpoint) is None,
    decreases accounts.len(),
{
    if accounts.len() > 0 {
        let rest = accounts.drop_first();
        picking_goes_by_endpoint(rest, endpoint, k - 1);
        assert forall|m: int| 0 <= m < rest.len() implies #[trigger] rest[m] == accounts[m
            + 1] by {}
        if 0 < k < accounts.len() && (forall|m: int|
            0 <= m < k ==> (#[trigger] accounts[m]).endpoint != endpoint) {
            assert(accounts[0].endpoint != endpoint);
            assert(rest[k - 1] == accounts[k]);
            assert forall|m: int| 0 <= m < k - 1 implies (#[trigger] rest[m]).endpoint
                != endpoint by {
                assert(accounts[m + 1].endpoint != endpoint);
            }
        }
        if forall|m: int|
            0 <= m < accounts.len() ==> (#[trigger] accounts[m]).endpoint != endpoint {
            assert(accounts[0].endpoint != endpoint);
            assert forall|m: int| 0 <= m < rest.len() implies (#[trigger] rest[m]).endpoint
                != endpoint by {
                assert(accounts[m + 1].endpoint != endpoint);
            }
        }
    }
}

} // verus!
