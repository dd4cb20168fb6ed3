use ais_tracing::services::az::{
    accounts_command, after_profile, after_token, azure_error_summary, grant_command,
    grant_self_cosmos_data_reader, grant_step, list_cosmos_accounts, list_subscriptions, login_command,
    open_login, principal_command, profile_command, signed_in_principal_id, subscriptions_command,
    token_command, AccountScan, AccountsReply, Asked, AzLoginState, CommandReply, CosmosAccount,
    LoginStep, ProfileReply, StartError, Subscription, SubscriptionError, SubscriptionsReply,
    TokenReply,
};

fn account(name: &str, subscription_id: &str) -> CosmosAccount {
    CosmosAccount {
        name: name.into(),
        resource_group: "rg".into(),
        endpoint: format!("https://{name}.documents.azure.com:443/"),
        subscription_id: subscription_id.into(),
    }
}

fn subscription(id: &str, name: &str) -> Subscription {
    Subscription { id: id.into(), name: name.into() }
}

#[test]
fn an_expired_refresh_token_is_recognised_and_summarised() {
    let stderr = "ERROR: AADSTS70043: The refresh token has expired or is invalid \
                  due to sign-in frequency checks by conditional access. The token \
                  was issued on 2026-08-27T15:20:56Z and the maximum allowed \
                  lifetime for this request is 36000.\n\
                  Run the command below to authenticate interactively:\n\
                  az logout\naz login --tenant \"...\"";
    let (message, expired) = azure_error_summary(stderr);
    assert!(expired);
    assert!(message.contains("session expired"), "got: {message}");
    assert!(!message.contains("AADSTS"), "got: {message}");
    assert!(!message.contains("az logout"), "got: {message}");
}

#[test]
fn other_failures_keep_their_own_first_line() {
    let (message, expired) = azure_error_summary(
        "ERROR: (AuthorizationFailed) The client does not have authorization \
         to perform action over scope.\nmore detail here",
    );
    assert!(!expired, "a permissions problem is not an expired session");
    assert!(message.starts_with("(AuthorizationFailed)"), "got: {message}");
    assert!(!message.contains("more detail"), "one line only");
}

#[test]
fn an_empty_stderr_still_yields_something_printable() {
    let (message, expired) = azure_error_summary("   \n  ");
    assert!(!expired);
    assert_eq!(message, "unknown error");
}

#[test]
fn an_unreadable_scan_is_not_an_empty_one() {
    let failed = AccountScan {
        accounts: vec![],
        errors: vec![SubscriptionError {
            name: "prod".into(),
            id: "sub-1".into(),
            message: "session expired".into(),
            expired: true,
        }],
    };
    assert!(failed.blind());
    assert!(failed.any_expired());

    let genuinely_empty = AccountScan::default();
    assert!(!genuinely_empty.blind());
    assert!(!genuinely_empty.any_expired());
}

#[test]
fn a_partial_scan_reports_both_halves() {
    let partial = AccountScan {
        accounts: vec![CosmosAccount {
            name: "cosmos-a".into(),
            resource_group: "rg".into(),
            endpoint: "https://a.documents.azure.com:443/".into(),
            subscription_id: "sub-1".into(),
        }],
        errors: vec![SubscriptionError {
            name: "locked".into(),
            id: "sub-2".into(),
            message: "PIM not activated".into(),
            expired: false,
        }],
    };
    assert!(!partial.blind(), "something was found, so this is not blind");
    assert!(!partial.any_expired());
    assert_eq!(partial.errors.len(), 1, "the skipped one is still reported");
}

#[test]
fn every_expiry_code_counts_and_long_lines_are_cut() {
    for code in ["AADSTS700082", "AADSTS50173", "the refresh token has expired"] {
        let (message, expired) = azure_error_summary(code);
        assert!(expired, "{code}");
        assert_eq!(
            message,
            "Azure session expired — re-run `az login` (conditional access \
             enforces a sign-in frequency)."
        );
    }
    let (message, _) = azure_error_summary(&format!("\n\n ERROR:ERROR: {}\nnext", "é".repeat(300)));
    assert_eq!(message, "é".repeat(220));
}

#[test]
fn a_profile_alone_does_not_sign_anyone_in() {
    let profile = ProfileReply::Profile { name: "me".into(), id: "sub".into() };
    assert_eq!(
        after_profile(profile),
        LoginStep::AskToken { account: "me".into(), subscription_id: "sub".into() }
    );
    assert_eq!(
        after_profile(ProfileReply::NotFound),
        LoginStep::Done(AzLoginState::AzNotFound)
    );
    for reply in [ProfileReply::Unreadable, ProfileReply::Refused, ProfileReply::NotStarted] {
        assert_eq!(after_profile(reply), LoginStep::Done(AzLoginState::NotLoggedIn));
    }

    assert_eq!(
        after_token("me".into(), "sub".into(), TokenReply::Granted),
        AzLoginState::LoggedIn { account: "me".into(), subscription_id: "sub".into() }
    );
    assert_eq!(
        after_token("me".into(), "sub".into(), TokenReply::Refused { stderr: "ERROR: no".into() }),
        AzLoginState::Expired { account: "me".into(), message: "no".into() }
    );
    assert_eq!(
        after_token("me".into(), "sub".into(), TokenReply::NotStarted { error: "gone".into() }),
        AzLoginState::Expired {
            account: "me".into(),
            message: "could not acquire a token: gone".into()
        }
    );
}

#[test]
fn a_login_that_cannot_start_says_why() {
    assert_eq!(open_login(Ok(())), Ok(()));
    assert_eq!(
        open_login(Err(StartError::NotFound)),
        Err("Azure CLI ('az') not found on PATH.".to_string())
    );
    assert_eq!(
        open_login(Err(StartError::Other("busy".into()))),
        Err("Failed to start 'az login': busy".to_string())
    );
}

#[test]
fn commands_are_worded_exactly() {
    assert_eq!(profile_command(), vec!["account", "show", "--output", "json"]);
    assert_eq!(token_command(), vec!["account", "get-access-token", "--output", "none"]);
    assert_eq!(login_command(), vec!["login"]);
    assert_eq!(
        subscriptions_command(),
        vec!["account", "list", "--query", "[].{id:id,name:name}", "--output", "json"]
    );
    assert_eq!(
        accounts_command("sub-1"),
        vec![
            "cosmosdb",
            "list",
            "--subscription",
            "sub-1",
            "--query",
            "[].{name:name,resourceGroup:resourceGroup,documentEndpoint:documentEndpoint}",
            "--output",
            "json"
        ]
    );
    assert_eq!(
        principal_command(),
        vec!["ad", "signed-in-user", "show", "--query", "id", "--output", "tsv"]
    );
    let words = grant_command(&account("a", "sub-1"), "me");
    assert_eq!(words[12], "00000000-0000-0000-0000-000000000001");
    assert_eq!(words[14], "me");
    assert_eq!(
        words[16],
        "/subscriptions/sub-1/resourceGroups/rg/providers/Microsoft.DocumentDB/databaseAccounts/a"
    );
}

#[test]
fn replies_to_commands_are_trimmed_or_explained() {
    assert_eq!(
        signed_in_principal_id(CommandReply::Answered(" id\n".into())),
        Ok("id".to_string())
    );
    assert_eq!(
        signed_in_principal_id(CommandReply::NotStarted("gone".into())),
        Err("az ad signed-in-user show failed: gone".to_string())
    );
    assert_eq!(grant_self_cosmos_data_reader(CommandReply::Answered("{}".into())), Ok(()));
    assert_eq!(
        grant_self_cosmos_data_reader(CommandReply::Refused(" denied \n".into())),
        Err("denied".to_string())
    );
    assert_eq!(
        grant_self_cosmos_data_reader(CommandReply::NotStarted("gone".into())),
        Err("az cosmosdb sql role assignment create failed: gone".to_string())
    );
    assert_eq!(
        list_subscriptions(SubscriptionsReply::Unreadable("bad".into())),
        Err("parse: bad".to_string())
    );
    assert_eq!(
        list_subscriptions(SubscriptionsReply::Refused(" no \n".into())),
        Err("no".to_string())
    );
    assert_eq!(
        list_subscriptions(SubscriptionsReply::NotStarted("gone".into())),
        Err("az account list failed: gone".to_string())
    );
    assert_eq!(
        list_subscriptions(SubscriptionsReply::Subscriptions(vec![subscription("s", "n")])),
        Ok(vec![subscription("s", "n")])
    );
}

#[test]
fn one_unreadable_subscription_does_not_hide_the_others() {
    let asked = vec![
        Asked {
            subscription: subscription("s1", "one"),
            reply: AccountsReply::Accounts(vec![account("a", ""), account("b", "")]),
        },
        Asked {
            subscription: subscription("s2", "two"),
            reply: AccountsReply::Refused("ERROR: AADSTS70043".into()),
        },
        Asked {
            subscription: subscription("s3", "three"),
            reply: AccountsReply::Unreadable("odd".into()),
        },
    ];
    let scan = list_cosmos_accounts(&asked).expect("nothing kept it from starting");
    assert_eq!(scan.accounts, vec![account("a", "s1"), account("b", "s1")]);
    assert_eq!(scan.errors.len(), 2);
    assert!(scan.errors[0].expired && scan.errors[0].name == "two");
    assert_eq!(scan.errors[1].message, "unreadable response: odd");
    assert!(!scan.errors[1].expired);
    assert!(scan.any_expired() && !scan.blind());

    let stopped = vec![Asked {
        subscription: subscription("s1", "one"),
        reply: AccountsReply::NotStarted("gone".into()),
    }];
    assert_eq!(
        list_cosmos_accounts(&stopped),
        Err("az cosmosdb list failed: gone".to_string())
    );
}

#[test]
fn a_role_is_granted_to_whoever_is_signed_in() {
    let acc = account("a", "sub-1");
    assert_eq!(
        grant_step(&acc, CommandReply::Answered(" user-1\n".into())),
        Ok(grant_command(&acc, "user-1"))
    );
    assert_eq!(
        grant_step(&acc, CommandReply::Refused(" not signed in\n".into())),
        Err("not signed in".to_string())
    );
    assert_eq!(
        grant_step(&acc, CommandReply::NotStarted("gone".into())),
        Err("az ad signed-in-user show failed: gone".to_string())
    );
}

#[test]
fn what_follows_the_first_line_changes_nothing() {
    for s in ["ERROR: (AuthorizationFailed) no", " \n ERROR: a \t\n b", "x\n"] {
        for extra in ["", "more detail here", " \n\n ERROR: other", "\n"] {
            let whole = format!("{s}\n{extra}");
            assert_eq!(azure_error_summary(&whole), azure_error_summary(s), "{whole:?}");
        }
    }
    assert_eq!(
        azure_error_summary("ERROR: (AuthorizationFailed) no\nmore detail here"),
        ("(AuthorizationFailed) no".to_string(), false)
    );
}
