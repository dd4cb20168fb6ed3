use ais_tracing::services::cache::{age, age_at, file_name, save, scan_to_save, slug};
use ais_tracing::services::cosmos::ContainerSchema;

fn schema() -> ContainerSchema {
    ContainerSchema {
        database: "db".into(),
        container: "c".into(),
        sampled_docs: 0,
        fields: vec![],
    }
}

#[test]
fn endpoints_become_safe_recognisable_filenames() {
    assert_eq!(
        slug("https://cosmos-tom-dev.documents.azure.com:443/"),
        "https---cosmos-tom-dev-documents-azure-com-443"
    );
    assert_ne!(
        slug("https://a.documents.azure.com:443/"),
        slug("https://b.documents.azure.com:443/")
    );
}

#[test]
fn ages_read_in_sensible_units() {
    let now = chrono::Utc::now().timestamp();
    assert_eq!(age(now), "just now");
    assert_eq!(age(now - 300), "5m ago");
    assert_eq!(age(now - 7200), "2h ago");
    assert_eq!(age(now - 172_800), "2d ago");
    assert_eq!(age(now + 60), "just now");
}

#[test]
fn ages_change_at_the_edges_of_their_units() {
    assert_eq!(age_at(59, 0), "just now");
    assert_eq!(age_at(60, 0), "1m ago");
    assert_eq!(age_at(3599, 0), "59m ago");
    assert_eq!(age_at(3600, 0), "1h ago");
    assert_eq!(age_at(86_399, 0), "23h ago");
    assert_eq!(age_at(86_400, 0), "1d ago");
    assert_eq!(age_at(i64::MAX, i64::MIN), "213503982334601d ago");
}

#[test]
fn a_slug_neither_begins_nor_ends_with_a_dash() {
    assert_eq!(slug("a-B-9"), "a-B-9");
    assert_eq!(slug("endpoint-one"), "endpoint-one");
    assert_eq!(slug(""), "");
    assert_eq!(slug("-a"), "at--a-45");
    assert_eq!(slug("é:/"), "at-----233-58-47");
    assert_eq!(file_name("https://x/"), "at-https---x--58-47-47-47.json");
    for text in ["https://x/", "-a", "é", "a", "https://a.documents.azure.com:443/"] {
        let once = slug(text);
        assert_eq!(slug(&once), once);
        assert!(once.chars().all(|c| c.is_ascii_alphanumeric() || c == '-'));
        assert!(!once.starts_with('-') && !once.ends_with('-'));
    }
}

#[test]
fn an_empty_scan_is_not_kept() {
    assert!(save(vec![]).is_none());
    assert!(scan_to_save(vec![], 7).is_none());
    let kept = scan_to_save(vec![schema()], 7).expect("there is something to keep");
    assert_eq!(kept.scanned_at, 7);
    assert_eq!(kept.schemas, vec![schema()]);
    let now = chrono::Utc::now().timestamp();
    let saved = save(vec![schema()]).expect("there is something to keep");
    assert!((saved.scanned_at - now).abs() <= 5);
}

#[test]
fn two_accounts_never_share_a_file() {
    let names = ["a", "b", "a-b", "ab", "a-", "-a", "--", "", "a--b", "documents", "A"];
    let file = |name: &str| file_name(&format!("https://{name}.documents.azure.com:443/"));
    for a in names {
        for b in names {
            assert_eq!(file(a) == file(b), a == b, "{a} and {b}");
        }
    }
    assert_eq!(file("a-"), "https---a--documents-azure-com-443.json");
    let addresses = [
        "https://a-b.documents.azure.com:443/",
        "https://a.b.documents.azure.com:443/",
        "https://a.documents.azure.com:443",
        "https://a.documents.azure.com:443/",
        "https://a.documents.azure.com:443//",
        "http://a.documents.azure.com:443/",
        "https://localhost:8081/",
        "https://localhost-8081/",
        "https://localhost.8081/",
        "https://x-58-47-47",
        "https://x:58/47/47",
        "://",
        "-://",
    ];
    for a in addresses {
        for b in addresses {
            assert_eq!(slug(a) == slug(b), a == b, "{a} and {b}");
        }
    }
    assert_eq!(
        slug("https://a.b.documents.azure.com:443/"),
        "at-https---a-b-documents-azure-com-443--58-47-47-46-46-46-46-58-47"
    );
}
