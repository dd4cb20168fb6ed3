//! What the Azure command line is asked, and what its answers mean.
//!
//! The user is expected to be signed in already (`az login`); the command line
//! is used for anything that concerns accounts rather than the data in them.

use crate::text::{
    chars_of, concat, contains, first_line_stays, is_space, occurring_is_being_part, occurs,
    occurs_at, one_piece, pieces, split, starts_with, text_of, trim, trimmed, trimmed_adds_nothing,
    trimming_takes_white_space_only, Text,
};
use vstd::prelude::*;

verus! {

// ── Errors on one line ───────────────────────────────────────────────────

/// Whether what the command line printed means that the session has expired.
pub open spec fn says_expired(flat: Text) -> bool {
    ||| occurs(flat, "AADSTS70043"@)
    ||| occurs(flat, "AADSTS700082"@)
    ||| occurs(flat, "AADSTS50173"@)
    ||| occurs(flat, "refresh token has expired"@)
}

/// The first of `lines` that is not blank, without white space around it.
pub open spec fn first_filled(lines: Seq<Text>) -> Text
    decreases lines.len(),
{
    if lines.len() == 0 {
        "unknown error"@
    } else if trimmed(lines[0]).len() > 0 {
        trimmed(lines[0])
    } else {
        first_filled(lines.drop_first())
    }
}

/// `s` without `prefix` in front of it, however often it stands there.
pub open spec fn without_prefix(s: Text, prefix: Text) -> Text
    decreases s.len(),
{
    if prefix.len() > 0 && occurs_at(s, prefix, 0) {
        without_prefix(s.skip(prefix.len() as int), prefix)
    } else {
        s
    }
}

/// The first `n` characters of `s`.
pub open spec fn beginning(s: Text, n: nat) -> Text {
    if s.len() <= n {
        s
    } else {
        s.take(n as int)
    }
}

/// What is shown of an expired session.
pub const SESSION_EXPIRED: &'static str =
    "Azure session expired — re-run `az login` (conditional access enforces a sign-in frequency).";

/// What is shown of what the command line printed.
pub open spec fn summary_of(stderr: Text) -> Text {
    let flat = trimmed(stderr);
    if says_expired(flat) {
        SESSION_EXPIRED@
    } else {
        beginning(
            trimmed(without_prefix(first_filled(pieces(flat, '\n')), "ERROR:"@)),
            220,
        )
    }
}

fn find_filled(lines: &Vec<String>) -> (out: String)
    ensures
        out@ == first_filled(lines.deep_view()),
{
    let ghost all = lines.deep_view();
    let mut i: usize = 0;
    assert(all.skip(0) =~= all);
    while i < lines.len()
        invariant
            all == lines.deep_view(),
            i <= lines@.len(),
            first_filled(all) == first_filled(all.skip(i as int)),
        decreases lines.len() - i,
    {
        assert(all.skip(i as int)[0] == lines@[i as int]@);
        assert(all.skip(i as int).drop_first() =~= all.skip(i + 1));
        let line = trim(lines[i].as_str());
        if !line.as_str().is_empty() {
            return line;
        }
        i = i + 1;
    }
    "unknown error".to_owned()
}

fn strip_prefix(s: String, prefix: &str) -> (out: String)
    ensures
        out@ == without_prefix(s@, prefix@),
{
    let n = chars_of(prefix).len();
    let mut out = s;
    while n > 0 && starts_with(out.as_str(), prefix)
        invariant
            n == prefix@.len(),
            without_prefix(s@, prefix@) == without_prefix(out@, prefix@),
        decreases out@.len(),
    {
        let x = chars_of(out.as_str());
        let rest = text_of(&x, n, x.len());
        assert(rest@ =~= out@.skip(n as int));
        out = rest;
    }
    out
}

/// Reduces a wall of error output to one line, and says whether it means the
/// session has expired.
///
/// A dead refresh token is reported as a code inside a paragraph that also
/// suggests `az logout`. Neither the code nor the paragraph is worth showing
/// anyone; "your session expired" is.
pub fn azure_error_summary(stderr: &str) -> (out: (String, bool))
    ensures
        out.0@ == summary_of(stderr@),
        out.1 == says_expired(trimmed(stderr@)),
{
    let flat = trim(stderr);
    let s = flat.as_str();
    if contains(s, "AADSTS70043") || contains(s, "AADSTS700082") || contains(s, "AADSTS50173")
        || contains(s, "refresh token has expired") {
        return (SESSION_EXPIRED.to_owned(), true);
    }
    let lines = split(s, '\n');
    let first = strip_prefix(find_filled(&lines), "ERROR:");
    let first = trim(first.as_str());
    let x = chars_of(first.as_str());
    if x.len() <= 220 {
        return (first, false);
    }
    let short = text_of(&x, 0, 220);
    assert(short@ =~= first@.take(220));
    (short, false)
}

/// Only the first line that is not blank counts: whatever follows it changes
/// nothing, unless it says that the session has expired.
pub proof fn only_the_first_line_counts(s: Text, extra: Text)
    requires
        trimmed(s).len() > 0,
        !says_expired(s + "\n"@ + extra),
    ensures
        summary_of(s + "\n"@ + extra) == summary_of(s),
        !says_expired(trimmed(s + "\n"@ + extra)),
        !says_expired(trimmed(s)),
{
    let whole = s + "\n"@ + extra;
    first_line_stays(s, extra);
    assert(s + ("\n"@ + extra) =~= whole);
    holds_no_marker(s, "\n"@ + extra);
    let none = Seq::<char>::empty();
    assert(whole + none =~= whole);
    holds_no_marker(whole, none);
}

proof fn holds_no_marker(s: Text, rest: Text)
    requires
        !says_expired(s + rest),
    ensures
        !says_expired(trimmed(s)),
{
    let whole = s + rest;
    assert forall|part: Text| #[trigger] occurs(trimmed(s), part) implies occurs(whole, part) by {
        trimmed_adds_nothing(s, part);
        let at = choose|at: int| occurs_at(s, part, at);
        assert(whole.subrange(at, at + part.len()) =~= s.subrange(at, at + part.len()));
        assert(occurs_at(whole, part, at));
    }
}

// ── Signing in ───────────────────────────────────────────────────────────

/// Whether the command line can reach Azure.
#[derive(Debug, PartialEq, Eq)]
pub enum AzLoginState {
    LoggedIn { account: String, subscription_id: String },
    /// A profile exists, but the refresh token is rejected. Distinct from
    /// `NotLoggedIn` because the symptom is worse: everything looks signed in
    /// until the first real call quietly returns nothing.
    Expired { account: String, message: String },
    NotLoggedIn,
    AzNotFound,
}

/// Whether the command line can reach Azure, as contracts speak of it.
pub enum LoginView {
    LoggedIn { account: Text, subscription_id: Text },
    Expired { account: Text, message: Text },
    NotLoggedIn,
    AzNotFound,
}

impl View for AzLoginState {
    type V = LoginView;

    open spec fn view(&self) -> LoginView {
        match self {
            AzLoginState::LoggedIn { account, subscription_id } => LoginView::LoggedIn {
                account: account@,
                subscription_id: subscription_id@,
            },
            AzLoginState::Expired { account, message } => LoginView::Expired {
                account: account@,
                message: message@,
            },
            AzLoginState::NotLoggedIn => LoginView::NotLoggedIn,
            AzLoginState::AzNotFound => LoginView::AzNotFound,
        }
    }
}

impl Clone for AzLoginState {
    fn clone(&self) -> (out: Self)
        ensures
            out@ == self@,
    {
        match self {
            AzLoginState::LoggedIn { account, subscription_id } => AzLoginState::LoggedIn {
                account: account.clone(),
                subscription_id: subscription_id.clone(),
            },
            AzLoginState::Expired { account, message } => AzLoginState::Expired {
                account: account.clone(),
                message: message.clone(),
            },
            AzLoginState::NotLoggedIn => AzLoginState::NotLoggedIn,
            AzLoginState::AzNotFound => AzLoginState::AzNotFound,
        }
    }
}

/// What asking for the local profile came to.
#[derive(Debug, PartialEq, Eq)]
pub enum ProfileReply {
    /// A profile with a name and the id of a subscription.
    Profile { name: String, id: String },
    /// An answer that is no profile.
    Unreadable,
    /// The command failed.
    Refused,
    /// There is no such command.
    NotFound,
    /// The command could not be started.
    NotStarted,
}

/// What asking for a token came to.
#[derive(Debug, PartialEq, Eq)]
pub enum TokenReply {
    Granted,
    /// The command failed and printed this.
    Refused { stderr: String },
    /// The command could not be started, for this reason.
    NotStarted { error: String },
}

/// What to do once the profile has been asked for.
#[derive(Debug, PartialEq, Eq)]
pub enum LoginStep {
    /// The state is known.
    Done(AzLoginState),
    /// A token decides.
    AskToken { account: String, subscription_id: String },
}

/// What to do once the profile has been asked for.
///
/// A profile on its own is not enough, and trusting it is what makes an expired
/// session so confusing: it is read from a *local* cache and stays there long
/// after the refresh token has died. Acquiring a token is the cheapest call
/// that proves the session really works.
pub fn after_profile(reply: ProfileReply) -> (out: LoginStep)
    ensures
        match reply {
            ProfileReply::Profile { name, id } => out is AskToken && out->account@ == name@
                && out->subscription_id@ == id@,
            ProfileReply::NotFound => out is Done && out->Done_0@ == LoginView::AzNotFound,
            _ => out is Done && out->Done_0@ == LoginView::NotLoggedIn,
        },
{
    match reply {
        ProfileReply::Profile { name, id } => LoginStep::AskToken {
            account: name,
            subscription_id: id,
        },
        ProfileReply::Unreadable => LoginStep::Done(AzLoginState::NotLoggedIn),
        ProfileReply::Refused => LoginStep::Done(AzLoginState::NotLoggedIn),
        ProfileReply::NotFound => LoginStep::Done(AzLoginState::AzNotFound),
        ProfileReply::NotStarted => LoginStep::Done(AzLoginState::NotLoggedIn),
    }
}

/// Whether the session of a profile works, now that a token has been asked for.
pub fn after_token(account: String, subscription_id: String, reply: TokenReply) -> (out:
    AzLoginState)
    ensures
        out@ == (match reply {
            TokenReply::Granted => LoginView::LoggedIn {
                account: account@,
                subscription_id: subscription_id@,
            },
            TokenReply::Refused { stderr } => LoginView::Expired {
                account: account@,
                message: summary_of(stderr@),
            },
            TokenReply::NotStarted { error } => LoginView::Expired {
                account: account@,
                message: "could not acquire a token: "@ + error@,
            },
        }),
{
    match reply {
        TokenReply::Granted => AzLoginState::LoggedIn { account, subscription_id },
        TokenReply::Refused { stderr } => AzLoginState::Expired {
            account,
            message: azure_error_summary(stderr.as_str()).0,
        },
        TokenReply::NotStarted { error } => AzLoginState::Expired {
            account,
            message: concat("could not acquire a token: ", error.as_str()),
        },
    }
}

/// Why a command could not be started.
#[derive(Debug, PartialEq, Eq)]
pub enum StartError {
    NotFound,
    Other(String),
}

/// What is said of the attempt to open `az login`.
pub fn open_login(started: Result<(), StartError>) -> (out: Result<(), String>)
    ensures
        match started {
            Ok(_) => out is Ok,
            Err(StartError::NotFound) => out is Err && out->Err_0@
                == "Azure CLI ('az') not found on PATH."@,
            Err(StartError::Other(e)) => out is Err && out->Err_0@
                == "Failed to start 'az login': "@ + e@,
        },
{
    match started {
        Ok(_) => Ok(()),
        Err(StartError::NotFound) => Err("Azure CLI ('az') not found on PATH.".to_owned()),
        Err(StartError::Other(e)) => Err(concat("Failed to start 'az login': ", e.as_str())),
    }
}

// ── Commands ─────────────────────────────────────────────────────────────

/// What a command came to.
#[derive(Debug, PartialEq, Eq)]
pub enum CommandReply {
    /// The command succeeded and printed this.
    Answered(String),
    /// The command failed and printed this as errors.
    Refused(String),
    /// The command could not be started, for this reason.
    NotStarted(String),
}

/// What a command printed, without white space around it, or why there is
/// nothing.
pub open spec fn printed(what: Text, reply: CommandReply) -> Result<Text, Text> {
    match reply {
        CommandReply::Answered(s) => Ok(trimmed(s@)),
        CommandReply::Refused(s) => Err(trimmed(s@)),
        CommandReply::NotStarted(e) => Err(what + " failed: "@ + e@),
    }
}

fn read_printed(what: &str, reply: CommandReply) -> (out: Result<String, String>)
    ensures
        match (out, printed(what@, reply)) {
            (Ok(s), Ok(t)) => s@ == t,
            (Err(s), Err(t)) => s@ == t,
            _ => false,
        },
{
    match reply {
        CommandReply::Answered(s) => Ok(trim(s.as_str())),
        CommandReply::Refused(s) => Err(trim(s.as_str())),
        CommandReply::NotStarted(e) => {
            let front = concat(what, " failed: ");
            Err(concat(front.as_str(), e.as_str()))
        },
    }
}

/// The id of the signed-in user, which a role assignment needs.
pub fn signed_in_principal_id(reply: CommandReply) -> (out: Result<String, String>)
    ensures
        match (out, printed("az ad signed-in-user show"@, reply)) {
            (Ok(s), Ok(t)) => s@ == t,
            (Err(s), Err(t)) => s@ == t,
            _ => false,
        },
{
    read_printed("az ad signed-in-user show", reply)
}

/// What asking for the subscriptions came to.
#[derive(Debug, PartialEq, Eq)]
pub enum SubscriptionsReply {
    Subscriptions(Vec<Subscription>),
    /// The answer could not be read, for this reason.
    Unreadable(String),
    /// The command failed and printed this.
    Refused(String),
    /// The command could not be started, for this reason.
    NotStarted(String),
}

/// The subscriptions of the signed-in user, or why there are none.
pub fn list_subscriptions(reply: SubscriptionsReply) -> (out: Result<Vec<Subscription>, String>)
    ensures
        match reply {
            SubscriptionsReply::Subscriptions(list) => out is Ok && out->Ok_0 == list,
            SubscriptionsReply::Unreadable(e) => out is Err && out->Err_0@ == "parse: "@ + e@,
            SubscriptionsReply::Refused(s) => out is Err && out->Err_0@ == trimmed(s@),
            SubscriptionsReply::NotStarted(e) => out is Err && out->Err_0@
                == "az account list failed: "@ + e@,
        },
{
    match reply {
        SubscriptionsReply::Subscriptions(list) => Ok(list),
        SubscriptionsReply::Unreadable(e) => Err(concat("parse: ", e.as_str())),
        SubscriptionsReply::Refused(s) => Err(trim(s.as_str())),
        SubscriptionsReply::NotStarted(e) => Err(concat("az account list failed: ", e.as_str())),
    }
}

/// Whether the signed-in user was granted the role to read the data of an
/// account.
pub fn grant_self_cosmos_data_reader(reply: CommandReply) -> (out: Result<(), String>)
    ensures
        match (out, printed("az cosmosdb sql role assignment create"@, reply)) {
            (Ok(_), Ok(_)) => true,
            (Err(s), Err(t)) => s@ == t,
            _ => false,
        },
{
    match read_printed("az cosmosdb sql role assignment create", reply) {
        Ok(_) => Ok(()),
        Err(e) => Err(e),
    }
}

/// The texts of `words`.
pub open spec fn texts(words: Seq<&str>) -> Seq<Text> {
    Seq::new(words.len(), |i: int| words[i]@)
}

fn owned(words: Vec<&str>) -> (out: Vec<String>)
    ensures
        out.deep_view() == texts(words@),
{
    let mut out: Vec<String> = Vec::new();
    let mut i: usize = 0;
    while i < words.len()
        invariant
            i <= words@.len(),
            out@.len() == i,
            forall|j: int| 0 <= j < i ==> (#[trigger] out@[j])@ == words@[j]@,
        decreases words.len() - i,
    {
        out.push(words[i].to_owned());
        i = i + 1;
    }
    assert(out.deep_view() =~= texts(words@));
    out
}

/// The command that shows the local profile.
pub fn profile_command() -> (out: Vec<String>)
    ensures
        out.deep_view() == seq!["account"@, "show"@, "--output"@, "json"@],
{
    let out = owned(vec!["account", "show", "--output", "json"]);
    assert(out.deep_view() =~= seq!["account"@, "show"@, "--output"@, "json"@]);
    out
}

/// The command that acquires a token. The token itself is not printed: there is
/// no reason for a secret to pass through this process.
pub fn token_command() -> (out: Vec<String>)
    ensures
        out.deep_view() == seq!["account"@, "get-access-token"@, "--output"@, "none"@],
{
    let out = owned(vec!["account", "get-access-token", "--output", "none"]);
    assert(out.deep_view() =~= seq!["account"@, "get-access-token"@, "--output"@, "none"@]);
    out
}

/// The command that signs the user in.
pub fn login_command() -> (out: Vec<String>)
    ensures
        out.deep_view() == seq!["login"@],
{
    let out = owned(vec!["login"]);
    assert(out.deep_view() =~= seq!["login"@]);
    out
}

/// The command that lists the subscriptions.
pub fn subscriptions_command() -> (out: Vec<String>)
    ensures
        out.deep_view() == seq![
            "account"@,
            "list"@,
            "--query"@,
            "[].{id:id,name:name}"@,
            "--output"@,
            "json"@,
        ],
{
    let out = owned(
        vec!["account", "list", "--query", "[].{id:id,name:name}", "--output", "json"],
    );
    assert(out.deep_view() =~= seq![
        "account"@,
        "list"@,
        "--query"@,
        "[].{id:id,name:name}"@,
        "--output"@,
        "json"@,
    ]);
    out
}

/// The command that lists the accounts of a subscription.
pub open spec fn accounts_words(subscription: Text) -> Seq<Text> {
    seq![
        "cosmosdb"@,
        "list"@,
        "--subscription"@,
        subscription,
        "--query"@,
        "[].{name:name,resourceGroup:resourceGroup,documentEndpoint:documentEndpoint}"@,
        "--output"@,
        "json"@,
    ]
}

/// The command that lists the accounts of a subscription.
pub fn accounts_command(subscription: &str) -> (out: Vec<String>)
    ensures
        out.deep_view() == accounts_words(subscription@),
{
    let out = owned(
        vec![
            "cosmosdb",
            "list",
            "--subscription",
            subscription,
            "--query",
            "[].{name:name,resourceGroup:resourceGroup,documentEndpoint:documentEndpoint}",
            "--output",
            "json",
        ],
    );
    assert(out.deep_view() =~= accounts_words(subscription@));
    out
}

/// The command that shows the id of the signed-in user.
pub fn principal_command() -> (out: Vec<String>)
    ensures
        out.deep_view() == seq![
            "ad"@,
            "signed-in-user"@,
            "show"@,
            "--query"@,
            "id"@,
            "--output"@,
            "tsv"@,
        ],
{
    let out = owned(vec!["ad", "signed-in-user", "show", "--query", "id", "--output", "tsv"]);
    assert(out.deep_view() =~= seq![
        "ad"@,
        "signed-in-user"@,
        "show"@,
        "--query"@,
        "id"@,
        "--output"@,
        "tsv"@,
    ]);
    out
}

/// The built-in role that may read data. Access to data is governed by role
/// assignments of its own: a principal can see an account and still be refused
/// its data until this role (or better) is granted on the account.
pub const DATA_READER_ROLE_ID: &'static str = "00000000-0000-0000-0000-000000000001";

/// What a role on `account` applies to.
pub open spec fn scope_of(account: AccountView) -> Text {
    "/subscriptions/"@ + account.subscription_id + "/resourceGroups/"@ + account.resource_group
        + "/providers/Microsoft.DocumentDB/databaseAccounts/"@ + account.name
}

/// The command that grants `principal` the role to read the data of `account`.
pub open spec fn grant_words(account: AccountView, principal: Text) -> Seq<Text> {
    seq![
        "cosmosdb"@,
        "sql"@,
        "role"@,
        "assignment"@,
        "create"@,
        "--subscription"@,
        account.subscription_id,
        "--resource-group"@,
        account.resource_group,
        "--account-name"@,
        account.name,
        "--role-definition-id"@,
        DATA_READER_ROLE_ID@,
        "--principal-id"@,
        principal,
        "--scope"@,
        scope_of(account),
    ]
}

/// The command that grants `principal_id` the role to read the data of
/// `account`.
pub fn grant_command(account: &CosmosAccount, principal_id: &str) -> (out: Vec<String>)
    ensures
        out.deep_view() == grant_words(account@, principal_id@),
{
    let mut scope = "/subscriptions/".to_owned();
    scope.append(account.subscription_id.as_str());
    scope.append("/resourceGroups/");
    scope.append(account.resource_group.as_str());
    scope.append("/providers/Microsoft.DocumentDB/databaseAccounts/");
    scope.append(account.name.as_str());
    let out = owned(
        vec![
            "cosmosdb",
            "sql",
            "role",
            "assignment",
            "create",
            "--subscription",
            account.subscription_id.as_str(),
            "--resource-group",
            account.resource_group.as_str(),
            "--account-name",
            account.name.as_str(),
            "--role-definition-id",
            DATA_READER_ROLE_ID,
            "--principal-id",
            principal_id,
            "--scope",
            scope.as_str(),
        ],
    );
    assert(out.deep_view() =~= grant_words(account@, principal_id@));
    out
}

/// What to do once the id of the signed-in user has been asked for: run the
/// command that grants them the role, or give up with what went wrong.
pub fn grant_step(account: &CosmosAccount, principal: CommandReply) -> (out: Result<
    Vec<String>,
    String,
>)
    ensures
        match (out, printed("az ad signed-in-user show"@, principal)) {
            (Ok(words), Ok(id)) => words.deep_view() == grant_words(account@, id),
            (Err(s), Err(t)) => s@ == t,
            _ => false,
        },
{
    match signed_in_principal_id(principal) {
        Ok(id) => Ok(grant_command(account, id.as_str())),
        Err(e) => Err(e),
    }
}

// ── Accounts ─────────────────────────────────────────────────────────────

/// An account discovered in the signed-in subscriptions.
#[derive(Debug, PartialEq, Eq)]
pub struct CosmosAccount {
    pub name: String,
    pub resource_group: String,
    /// Such as `https://myaccount.documents.azure.com:443/`.
    pub endpoint: String,
    pub subscription_id: String,
}

/// An account, as contracts speak of it.
pub struct AccountView {
    pub name: Text,
    pub resource_group: Text,
    pub endpoint: Text,
    pub subscription_id: Text,
}

impl View for CosmosAccount {
    type V = AccountView;

    open spec fn view(&self) -> AccountView {
        AccountView {
            name: self.name@,
            resource_group: self.resource_group@,
            endpoint: self.endpoint@,
            subscription_id: self.subscription_id@,
        }
    }
}

impl DeepView for CosmosAccount {
    type V = AccountView;

    open spec fn deep_view(&self) -> AccountView {
        self@
    }
}

impl Clone for CosmosAccount {
    fn clone(&self) -> (out: Self)
        ensures
            out@ == self@,
    {
        CosmosAccount {
            name: self.name.clone(),
            resource_group: self.resource_group.clone(),
            endpoint: self.endpoint.clone(),
            subscription_id: self.subscription_id.clone(),
        }
    }
}

/// A subscription of the signed-in user.
#[derive(Debug, PartialEq, Eq)]
pub struct Subscription {
    pub id: String,
    pub name: String,
}

/// A subscription that could not be read, and why.
#[derive(Debug, PartialEq, Eq)]
pub struct SubscriptionError {
    pub name: String,
    pub id: String,
    pub message: String,
    /// The session is dead, rather than the permissions being wrong. Worth
    /// separating: one is fixed by `az login`, the other cannot be fixed by the
    /// user at all.
    pub expired: bool,
}

/// A subscription that could not be read, as contracts speak of it.
pub struct SubscriptionErrorView {
    pub name: Text,
    pub id: Text,
    pub message: Text,
    pub expired: bool,
}

impl View for SubscriptionError {
    type V = SubscriptionErrorView;

    open spec fn view(&self) -> SubscriptionErrorView {
        SubscriptionErrorView {
            name: self.name@,
            id: self.id@,
            message: self.message@,
            expired: self.expired,
        }
    }
}

impl DeepView for SubscriptionError {
    type V = SubscriptionErrorView;

    open spec fn deep_view(&self) -> SubscriptionErrorView {
        self@
    }
}

/// What was found, and what could not be looked at.
///
/// The second half is the point. Skipping unreadable subscriptions is right,
/// for one locked subscription should not block discovery in the others, but
/// doing it silently turns "your session expired" into "you have no accounts",
/// which sends people looking in the wrong place entirely.
#[derive(Debug, PartialEq, Eq)]
pub struct AccountScan {
    pub accounts: Vec<CosmosAccount>,
    pub errors: Vec<SubscriptionError>,
}

/// What a scan found, as contracts speak of it.
pub struct ScanView {
    pub accounts: Seq<AccountView>,
    pub errors: Seq<SubscriptionErrorView>,
}

impl View for AccountScan {
    type V = ScanView;

    open spec fn view(&self) -> ScanView {
        ScanView { accounts: self.accounts.deep_view(), errors: self.errors.deep_view() }
    }
}

impl Default for AccountScan {
    fn default() -> (out: Self)
        ensures
            out@ == (ScanView { accounts: Seq::empty(), errors: Seq::empty() }),
    {
        let out = AccountScan { accounts: Vec::new(), errors: Vec::new() };
        assert(out.accounts.deep_view() =~= Seq::<AccountView>::empty());
        assert(out.errors.deep_view() =~= Seq::<SubscriptionErrorView>::empty());
        out
    }
}

impl ScanView {
    /// Nothing could be read anywhere.
    pub open spec fn blind(self) -> bool {
        self.accounts.len() == 0 && self.errors.len() > 0
    }

    /// Some subscription could not be read because the session is dead.
    pub open spec fn any_expired(self) -> bool {
        exists|i: int| 0 <= i < self.errors.len() && (#[trigger] self.errors[i]).expired
    }
}

impl AccountScan {
    /// Nothing could be read anywhere, so an empty result says nothing about
    /// whether any accounts exist.
    pub fn blind(&self) -> (r: bool)
        ensures
            r == self@.blind(),
    {
        self.accounts.len() == 0 && self.errors.len() > 0
    }

    /// Some subscription could not be read because the session is dead.
    pub fn any_expired(&self) -> (r: bool)
        ensures
            r == self@.any_expired(),
    {
        let ghost all = self@.errors;
        let mut i: usize = 0;
        while i < self.errors.len()
            invariant
                all == self.errors.deep_view(),
                i <= self.errors@.len(),
                forall|j: int| 0 <= j < i ==> !(#[trigger] all[j]).expired,
            decreases self.errors.len() - i,
        {
            assert(all[i as int] == self.errors@[i as int]@);
            if self.errors[i].expired {
                assert(self@.errors[i as int].expired);
                return true;
            }
            i = i + 1;
        }
        false
    }
}

/// What asking one subscription for its accounts came to.
#[derive(Debug, PartialEq, Eq)]
pub enum AccountsReply {
    /// The accounts, whose subscription is not yet filled in.
    Accounts(Vec<CosmosAccount>),
    /// The command failed and printed this.
    Refused(String),
    /// The answer could not be read, for this reason.
    Unreadable(String),
    /// The command could not be started, for this reason.
    NotStarted(String),
}

/// What one subscription answered.
#[derive(Debug, PartialEq, Eq)]
pub struct Asked {
    pub subscription: Subscription,
    pub reply: AccountsReply,
}

/// What asking one subscription for its accounts came to, as contracts speak of
/// it.
pub enum ReplyView {
    Accounts(Seq<AccountView>),
    Refused(Text),
    Unreadable(Text),
    NotStarted(Text),
}

impl View for AccountsReply {
    type V = ReplyView;

    open spec fn view(&self) -> ReplyView {
        match self {
            AccountsReply::Accounts(found) => ReplyView::Accounts(found.deep_view()),
            AccountsReply::Refused(stderr) => ReplyView::Refused(stderr@),
            AccountsReply::Unreadable(e) => ReplyView::Unreadable(e@),
            AccountsReply::NotStarted(e) => ReplyView::NotStarted(e@),
        }
    }
}

/// What one subscription answered, as contracts speak of it.
pub struct AskedView {
    pub id: Text,
    pub name: Text,
    pub reply: ReplyView,
}

impl View for Asked {
    type V = AskedView;

    open spec fn view(&self) -> AskedView {
        AskedView {
            id: self.subscription.id@,
            name: self.subscription.name@,
            reply: self.reply@,
        }
    }
}

impl DeepView for Asked {
    type V = AskedView;

    open spec fn deep_view(&self) -> AskedView {
        self@
    }
}

/// `accounts`, all in the subscription `id`.
pub open spec fn in_subscription(accounts: Seq<AccountView>, id: Text) -> Seq<AccountView> {
    Seq::new(accounts.len(), |i: int| AccountView { subscription_id: id, ..accounts[i] })
}

/// The accounts that a subscription answered with.
pub open spec fn accounts_in(asked: AskedView) -> Seq<AccountView> {
    match asked.reply {
        ReplyView::Accounts(found) => in_subscription(found, asked.id),
        _ => Seq::empty(),
    }
}

/// Why a subscription could not be read, where it could not.
pub open spec fn error_in(asked: AskedView) -> Option<SubscriptionErrorView> {
    match asked.reply {
        ReplyView::Refused(stderr) => Some(
            SubscriptionErrorView {
                name: asked.name,
                id: asked.id,
                message: summary_of(stderr),
                expired: says_expired(trimmed(stderr)),
            },
        ),
        ReplyView::Unreadable(e) => Some(
            SubscriptionErrorView {
                name: asked.name,
                id: asked.id,
                message: "unreadable response: "@ + e,
                expired: false,
            },
        ),
        _ => None,
    }
}

/// The accounts that `asked` answered with, in order.
pub open spec fn accounts_among(asked: Seq<AskedView>) -> Seq<AccountView>
    decreases asked.len(),
{
    if asked.len() == 0 {
        Seq::empty()
    } else {
        accounts_among(asked.drop_last()) + accounts_in(asked.last())
    }
}

/// The subscriptions among `asked` that could not be read, in order.
pub open spec fn errors_among(asked: Seq<AskedView>) -> Seq<SubscriptionErrorView>
    decreases asked.len(),
{
    if asked.len() == 0 {
        Seq::empty()
    } else {
        match error_in(asked.last()) {
            Some(e) => errors_among(asked.drop_last()).push(e),
            None => errors_among(asked.drop_last()),
        }
    }
}

/// Why the first of `asked` that could not be asked at all could not.
pub open spec fn first_not_started(asked: Seq<AskedView>) -> Option<Text>
    decreases asked.len(),
{
    if asked.len() == 0 {
        None
    } else {
        match asked[0].reply {
            ReplyView::NotStarted(e) => Some(e),
            _ => first_not_started(asked.drop_first()),
        }
    }
}

fn find_not_started(asked: &Vec<Asked>) -> (out: Option<String>)
    ensures
        out.deep_view() == first_not_started(asked.deep_view()),
{
    let ghost all = asked.deep_view();
    let mut i: usize = 0;
    assert(all.skip(0) =~= all);
    while i < asked.len()
        invariant
            all == asked.deep_view(),
            i <= asked@.len(),
            first_not_started(all) == first_not_started(all.skip(i as int)),
        decreases asked.len() - i,
    {
        assert(all.skip(i as int)[0] == asked@[i as int]@);
        assert(all.skip(i as int).drop_first() =~= all.skip(i + 1));
        if let AccountsReply::NotStarted(e) = &asked[i].reply {
            return Some(e.clone());
        }
        i = i + 1;
    }
    None
}

fn add_accounts(list: &mut Vec<CosmosAccount>, found: &Vec<CosmosAccount>, id: &str)
    ensures
        final(list).deep_view() == old(list).deep_view() + in_subscription(found.deep_view(), id@),
{
    let ghost before = list.deep_view();
    let ghost all = in_subscription(found.deep_view(), id@);
    let mut i: usize = 0;
    assert(before + all.take(0) =~= before);
    while i < found.len()
        invariant
            all == in_subscription(found.deep_view(), id@),
            i <= found@.len(),
            list.deep_view() == before + all.take(i as int),
        decreases found.len() - i,
    {
        let ghost here = list.deep_view();
        let mut account = found[i].clone();
        account.subscription_id = id.to_owned();
        let ghost view = account@;
        assert(view == all[i as int]);
        list.push(account);
        assert(list.deep_view() =~= here.push(view));
        assert(list.deep_view() =~= before + all.take(i + 1));
        i = i + 1;
    }
    assert(all.take(i as int) =~= all);
}

/// What all subscriptions together answered.
///
/// Every subscription is asked, because accounts often live in only one that is
/// not the default. One that cannot be read, or answers in an unexpected shape,
/// must not block discovery in the others; but it is recorded, because an empty
/// list from a subscription nobody could read is not evidence of anything. Only
/// a command that cannot be started at all ends the scan.
pub fn list_cosmos_accounts(asked: &Vec<Asked>) -> (out: Result<AccountScan, String>)
    ensures
        match first_not_started(asked.deep_view()) {
            Some(e) => out is Err && out->Err_0@ == "az cosmosdb list failed: "@ + e,
            None => out is Ok && out->Ok_0@ == (ScanView {
                accounts: accounts_among(asked.deep_view()),
                errors: errors_among(asked.deep_view()),
            }),
        },
{
    if let Some(e) = find_not_started(asked) {
        return Err(concat("az cosmosdb list failed: ", e.as_str()));
    }
    let ghost all = asked.deep_view();
    let mut scan = AccountScan::default();
    let mut i: usize = 0;
    while i < asked.len()
        invariant
            all == asked.deep_view(),
            i <= asked@.len(),
            scan.accounts.deep_view() == accounts_among(all.take(i as int)),
            scan.errors.deep_view() == errors_among(all.take(i as int)),
        decreases asked.len() - i,
    {
        let one = &asked[i];
        assert(all.take(i + 1).drop_last() =~= all.take(i as int));
        assert(all.take(i + 1).last() == one@);
        let ghost accounts = scan.accounts.deep_view();
        let ghost errors = scan.errors.deep_view();
        assert(accounts + Seq::<AccountView>::empty() =~= accounts);
        match &one.reply {
            AccountsReply::Accounts(found) => {
                add_accounts(&mut scan.accounts, found, one.subscription.id.as_str());
            },
            AccountsReply::Refused(stderr) => {
                let (message, expired) = azure_error_summary(stderr.as_str());
                let error = SubscriptionError {
                    name: one.subscription.name.clone(),
                    id: one.subscription.id.clone(),
                    message,
                    expired,
                };
                let ghost view = error@;
                scan.errors.push(error);
                assert(scan.errors.deep_view() =~= errors.push(view));
            },
            AccountsReply::Unreadable(e) => {
                let error = SubscriptionError {
                    name: one.subscription.name.clone(),
                    id: one.subscription.id.clone(),
                    message: concat("unreadable response: ", e.as_str()),
                    expired: false,
                };
                let ghost view = error@;
                scan.errors.push(error);
                assert(scan.errors.deep_view() =~= errors.push(view));
            },
            AccountsReply::NotStarted(_) => {},
        }
        i = i + 1;
    }
    assert(all.take(i as int) =~= all);
    Ok(scan)
}

/// Accounts are found wherever a subscription answered, and every subscription
/// that could not be read is reported: one failing never hides what others
/// found.
pub proof fn scan_reports_both_halves(asked: Seq<AskedView>, i: int)
    requires
        0 <= i < asked.len(),
    ensures
        forall|j: int|
            0 <= j < accounts_in(asked[i]).len() ==> accounts_among(asked).contains(
                #[trigger] accounts_in(asked[i])[j],
            ),
        error_in(asked[i]) is Some ==> errors_among(asked).contains(error_in(asked[i])->0),
        asked[i].reply is NotStarted ==> first_not_started(asked) is Some,
    decreases asked.len(),
{
    let front = asked.drop_last();
    let accounts = accounts_among(asked);
    let errors = errors_among(asked);
    let found = accounts_in(asked[i]);
    if asked[i].reply is NotStarted {
        not_started_is_seen(asked, i);
    }
    if i < front.len() {
        let early = accounts_among(front);
        scan_reports_both_halves(front, i);
        assert forall|j: int| 0 <= j < found.len() implies accounts.contains(
            #[trigger] found[j],
        ) by {
            assert(early.contains(accounts_in(front[i])[j]));
            let k = choose|k: int| 0 <= k < early.len() && early[k] == found[j];
            assert(accounts[k] == found[j]);
        }
        if let Some(e) = error_in(asked[i]) {
            let k = choose|k: int| 0 <= k < errors_among(front).len() && errors_among(front)[k] == e;
            assert(errors[k] == e);
        }
    } else {
        assert forall|j: int| 0 <= j < found.len() implies accounts.contains(
            #[trigger] found[j],
        ) by {
            assert(accounts[accounts_among(front).len() + j] == found[j]);
        }
        if let Some(e) = error_in(asked[i]) {
            assert(errors[errors.len() - 1] == e);
        }
    }
}

proof fn not_started_is_seen(asked: Seq<AskedView>, i: int)
    requires
        0 <= i < asked.len(),
        asked[i].reply is NotStarted,
    ensures
        first_not_started(asked) is Some,
    decreases asked.len(),
{
    if i > 0 {
        not_started_is_seen(asked.drop_first(), i - 1);
    }
}

/// An empty scan means that there are no accounts only where everything
/// answered: a scan that found nothing is blind exactly when some subscription
/// could not be read.
pub proof fn empty_is_not_blind(asked: Seq<AskedView>)
    requires
        first_not_started(asked) is None,
    ensures
        ({
            let scan = ScanView {
                accounts: accounts_among(asked),
                errors: errors_among(asked),
            };
            scan.blind() <==> accounts_among(asked).len() == 0 && exists|i: int|
                0 <= i < asked.len() && error_in(#[trigger] asked[i]) is Some
        }),
{
    if exists|i: int| 0 <= i < asked.len() && error_in(#[trigger] asked[i]) is Some {
        let i = choose|i: int| 0 <= i < asked.len() && error_in(#[trigger] asked[i]) is Some;
        scan_reports_both_halves(asked, i);
    }
    if errors_among(asked).len() > 0 {
        an_error_comes_from_somewhere(asked);
    }
}

proof fn an_error_comes_from_somewhere(asked: Seq<AskedView>)
    requires
        errors_among(asked).len() > 0,
    ensures
        exists|i: int| 0 <= i < asked.len() && error_in(#[trigger] asked[i]) is Some,
    decreases asked.len(),
{
    if error_in(asked.last()) is Some {
        assert(error_in(asked[asked.len() - 1]) is Some);
    } else {
        let front = asked.drop_last();
        an_error_comes_from_somewhere(front);
        let i = choose|i: int| 0 <= i < front.len() && error_in(#[trigger] front[i]) is Some;
        assert(error_in(asked[i]) is Some);
    }
}

// ── What the command line's words promise ────────────────────────────────

/// A session has expired where one of three codes, or the words for it, stand
/// anywhere in what was printed; then that is what is shown, and nothing of the
/// rest.
pub proof fn expired_sessions_are_told(a: Text, b: Text, s: Text)
    ensures
        says_expired(a + "AADSTS70043"@ + b),
        says_expired(a + "AADSTS700082"@ + b),
        says_expired(a + "AADSTS50173"@ + b),
        says_expired(a + "refresh token has expired"@ + b),
        says_expired(s) ==> occurs(s, "AADSTS70043"@) || occurs(s, "AADSTS700082"@) || occurs(
            s,
            "AADSTS50173"@,
        ) || occurs(s, "refresh token has expired"@),
        says_expired(trimmed(s)) ==> summary_of(s)
            == "Azure session expired — re-run `az login` (conditional access enforces a sign-in frequency)."@,
{
    occurring_is_being_part(a, "AADSTS70043"@, b, s);
    occurring_is_being_part(a, "AADSTS700082"@, b, s);
    occurring_is_being_part(a, "AADSTS50173"@, b, s);
    occurring_is_being_part(a, "refresh token has expired"@, b, s);
}

/// Whether `s` is one line of its own: it has no white space around it, no line
/// break in it, and does not begin with the mark of an error.
pub open spec fn is_one_line(s: Text) -> bool {
    &&& s.len() > 0
    &&& !is_space(s[0]) && !is_space(s.last())
    &&& forall|i: int| 0 <= i < s.len() ==> #[trigger] s[i] != '\n'
    &&& !occurs_at(s, "ERROR:"@, 0)
}

proof fn line_is_summed_up(text: Text, line: Text)
    requires
        is_one_line(line),
        text.len() > 0,
        !is_space(text[0]) && !is_space(text.last()),
        forall|i: int| 0 <= i < text.len() ==> #[trigger] text[i] != '\n',
        !says_expired(text),
        trimmed(without_prefix(text, "ERROR:"@)) == line,
    ensures
        summary_of(text) == beginning(line, 220),
{
    let none = Seq::<char>::empty();
    assert(none + text + none =~= text);
    trimming_takes_white_space_only(none, text, none, ' ');
    one_piece(text, '\n');
    let lines = pieces(text, '\n');
    assert(lines[0] == text);
    assert(first_filled(lines) == text);
}

/// What is printed on one line is shown as it is, without the mark of an error in
/// front of it; of a long line, the first 220 characters.
pub proof fn lines_are_shown_as_they_are(line: Text)
    requires
        is_one_line(line),
        !says_expired(line),
        !says_expired("ERROR: "@ + line),
    ensures
        line.len() <= 220 ==> summary_of(line) == line && summary_of("ERROR: "@ + line) == line,
        line.len() > 220 ==> summary_of(line) == line.take(220) && summary_of("ERROR: "@ + line)
            == line.take(220),
{
    reveal_strlit("ERROR: ");
    reveal_strlit("ERROR:");
    let none = Seq::<char>::empty();
    let mark = "ERROR:"@;
    assert(none + line + none =~= line);
    trimming_takes_white_space_only(none, line, none, ' ');
    assert(without_prefix(line, mark) == line);
    line_is_summed_up(line, line);
    let marked = "ERROR: "@ + line;
    let blank = seq![' '];
    let rest = blank + line;
    assert(marked =~= mark + rest);
    assert(marked.subrange(0, 6) =~= mark);
    assert(occurs_at(marked, mark, 0));
    assert(marked.skip(6) =~= rest);
    assert(rest[0] == ' ');
    assert(!occurs_at(rest, mark, 0)) by {
        if occurs_at(rest, mark, 0) {
            assert(rest.subrange(0, 6)[0] == rest[0]);
        }
    }
    assert(without_prefix(rest, mark) == rest);
    assert(without_prefix(marked, mark) == rest);
    assert(blank + line + none =~= rest);
    trimming_takes_white_space_only(blank, line, none, ' ');
    assert forall|i: int| 0 <= i < marked.len() implies #[trigger] marked[i] != '\n' by {
        if i >= 7 {
            assert(marked[i] == line[i - 7]);
        }
    }
    assert(marked.last() == line.last());
    line_is_summed_up(marked, line);
}

/// What a command printed is taken without the white space around it, as its
/// answer or as its error; one that could not be started says which it was.
pub proof fn replies_are_taken_as_printed(what: Text, s: String, e: String)
    ensures
        printed(what, CommandReply::Answered(s)) == Ok::<Text, Text>(trimmed(s@)),
        printed(what, CommandReply::Refused(s)) == Err::<Text, Text>(trimmed(s@)),
        printed(what, CommandReply::NotStarted(e)) == Err::<Text, Text>(
            what + " failed: "@ + e@,
        ),
{
}

/// Accounts are put into the subscription they were found in, and change in
/// nothing else.
pub proof fn accounts_belong_to_their_subscription(
    asked: AskedView,
    found: Seq<AccountView>,
    i: int,
)
    requires
        asked.reply == ReplyView::Accounts(found),
        0 <= i < found.len(),
    ensures
        ({
            let out = accounts_in(asked);
            &&& out.len() == found.len()
            &&& out[i].name == found[i].name
            &&& out[i].resource_group == found[i].resource_group
            &&& out[i].endpoint == found[i].endpoint
            &&& out[i].subscription_id == asked.id
            &&& error_in(asked) is None
        }),
{
}

/// A subscription that could not be read is reported by its own name and id: a
/// refusal by its summary, and as expired where it says so; an answer that is
/// not understood as such.
pub proof fn unread_subscriptions_say_why(asked: AskedView, s: Text)
    ensures
        asked.reply == ReplyView::Refused(s) ==> error_in(asked) is Some && (error_in(
            asked,
        )->0).name == asked.name && (error_in(asked)->0).id == asked.id && (error_in(
            asked,
        )->0).message == summary_of(s) && ((error_in(asked)->0).expired <==> says_expired(
            trimmed(s),
        )) && accounts_in(asked).len() == 0,
        asked.reply == ReplyView::Unreadable(s) ==> error_in(asked) is Some && (error_in(
            asked,
        )->0).name == asked.name && (error_in(asked)->0).id == asked.id && (error_in(
            asked,
        )->0).message == "unreadable response: "@ + s && !(error_in(asked)->0).expired
            && accounts_in(asked).len() == 0,
        asked.reply == ReplyView::NotStarted(s) ==> error_in(asked) is None && accounts_in(
            asked,
        ).len() == 0,
{
}

/// Subscriptions are taken in turn: each adds its accounts or its error behind
/// those of the ones before it. The scan ends for the first command that could
/// not be started.
pub proof fn subscriptions_are_taken_in_turn(front: Seq<AskedView>, last: AskedView, k: int)
    ensures
        accounts_among(front.push(last)) == accounts_among(front) + accounts_in(last),
        errors_among(front.push(last)) == (match error_in(last) {
            Some(e) => errors_among(front).push(e),
            None => errors_among(front),
        }),
        accounts_among(Seq::empty()).len() == 0,
        errors_among(Seq::empty()).len() == 0,
        0 <= k < front.len() && front[k].reply is NotStarted && (forall|m: int|
            0 <= m < k ==> !((#[trigger] front[m]).reply is NotStarted)) ==> first_not_started(
            front,
        ) == Some((front[k].reply)->NotStarted_0),
        (forall|m: int| 0 <= m < front.len() ==> !((#[trigger] front[m]).reply is NotStarted))
            ==> first_not_started(front) is None,
{
    assert(front.push(last).drop_last() =~= front);
    if 0 <= k < front.len() && front[k].reply is NotStarted && (forall|m: int|
        0 <= m < k ==> !((#[trigger] front[m]).reply is NotStarted)) {
        first_to_stop(front, k);
    }
    if forall|m: int| 0 <= m < front.len() ==> !((#[trigger] front[m]).reply is NotStarted) {
        nothing_stops(front);
    }
}

proof fn first_to_stop(asked: Seq<AskedView>, k: int)
    requires
        0 <= k < asked.len(),
        asked[k].reply is NotStarted,
        forall|m: int| 0 <= m < k ==> !((#[trigger] asked[m]).reply is NotStarted),
    ensures
        first_not_started(asked) == Some((asked[k].reply)->NotStarted_0),
    decreases asked.len(),
{
    if k > 0 {
        let rest = asked.drop_first();
        assert(!(asked[0].reply is NotStarted));
        assert forall|m: int| 0 <= m < k - 1 implies !((#[trigger] rest[m]).reply is NotStarted) by {
            assert(rest[m] == asked[m + 1]);
        }
        first_to_stop(rest, k - 1);
    }
}

proof fn nothing_stops(asked: Seq<AskedView>)
    requires
        forall|m: int| 0 <= m < asked.len() ==> !((#[trigger] asked[m]).reply is NotStarted),
    ensures
        first_not_started(asked) is None,
    decreases asked.len(),
{
    if asked.len() > 0 {
        let rest = asked.drop_first();
        assert(!(asked[0].reply is NotStarted));
        assert forall|m: int| 0 <= m < rest.len() implies !((
        #[trigger] rest[m]).reply is NotStarted) by {
            assert(rest[m] == asked[m + 1]);
        }
        nothing_stops(rest);
    }
}

/// The role is granted to the principal on the account itself, in its own group
/// and subscription, and it is the one that reads data.
pub proof fn roles_are_granted_on_the_account(account: AccountView, principal: Text)
    ensures
        ({
            let words = grant_words(account, principal);
            &&& words.len() == 17
            &&& words[5] == "--subscription"@ && words[6] == account.subscription_id
            &&& words[7] == "--resource-group"@ && words[8] == account.resource_group
            &&& words[9] == "--account-name"@ && words[10] == account.name
            &&& words[11] == "--role-definition-id"@
            &&& words[12] == "00000000-0000-0000-0000-000000000001"@
            &&& words[13] == "--principal-id"@ && words[14] == principal
            &&& words[15] == "--scope"@
            &&& words[16] == "/subscriptions/"@ + account.subscription_id + "/resourceGroups/"@
                + account.resource_group + "/providers/Microsoft.DocumentDB/databaseAccounts/"@
                + account.name
        }),
{
}

/// A scan is blind where it has no account but some error, and it has expired
/// where one of its errors has.
pub proof fn blindness_is_having_only_errors(scan: ScanView)
    ensures
        scan.blind() <==> scan.accounts.len() == 0 && scan.errors.len() > 0,
        scan.any_expired() <==> exists|i: int|
            0 <= i < scan.errors.len() && (#[trigger] scan.errors[i]).expired,
{
}

} // verus!
