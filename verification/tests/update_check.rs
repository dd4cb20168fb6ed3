use ais_tracing::update_check::{check, is_newer, platform_url, Build, Latest, Platforms, RELEASES_URL};

fn builds(entries: &[(&str, &str)]) -> Vec<Build> {
    entries.iter().map(|(k, u)| Build { key: k.to_string(), url: u.to_string() }).collect()
}

fn platforms(entries: &[(&str, &str)]) -> Platforms {
    Platforms { macos: builds(entries), windows: builds(entries), linux: builds(entries) }
}

#[test]
fn a_single_architecture_less_build_is_used_as_is() {
    let url = platform_url(
        &platforms(&[("exe_or_msi", "https://x/ais-tracing-setup.exe")]),
        "linux",
        "x86_64",
    );
    assert_eq!(url, "https://x/ais-tracing-setup.exe?src=updater");
}

#[test]
fn the_build_for_this_machine_is_chosen_not_an_arbitrary_one() {
    let p = platforms(&[
        ("arm", "https://x/ais-tracing-macos-arm64.dmg"),
        ("intel", "https://x/ais-tracing-macos-x86_64.dmg"),
    ]);
    for arch in ["aarch64", "x86_64"] {
        let expected = match arch {
            "aarch64" => "https://x/ais-tracing-macos-arm64.dmg?src=updater",
            _ => "https://x/ais-tracing-macos-x86_64.dmg?src=updater",
        };
        assert_eq!(platform_url(&p, "macos", arch), expected);
    }
}

#[test]
fn a_release_with_no_build_for_this_machine_falls_back_to_the_site() {
    for arch in ["aarch64", "x86_64"] {
        let other = match arch {
            "aarch64" => "https://x/ais-tracing-linux-x86_64.tar.gz",
            _ => "https://x/ais-tracing-macos-arm64.dmg",
        };
        assert_eq!(platform_url(&platforms(&[("only", other)]), "linux", arch), RELEASES_URL);
    }
}

#[test]
fn the_same_release_always_resolves_to_the_same_url() {
    let p = platforms(&[
        ("a", "https://x/one.tar.gz"),
        ("b", "https://x/two.tar.gz"),
        ("c", "https://x/three.tar.gz"),
    ]);
    assert_eq!(platform_url(&p, "linux", "x86_64"), platform_url(&p, "linux", "x86_64"));
}

#[test]
fn versions_compare_numerically_and_tolerate_prereleases() {
    assert!(is_newer("0.1.22", "0.1.21"));
    assert!(is_newer("0.2.0", "0.1.99"));
    assert!(!is_newer("0.1.21", "0.1.21"));
    assert!(!is_newer("0.1.20", "0.1.21"));
    assert!(is_newer("v0.1.22", "0.1.21"));
    assert!(!is_newer("0.1.22-rc1", "0.1.22"));
    assert!(!is_newer("not-a-version", "0.1.21"));
}

#[test]
fn odd_versions_are_never_newer() {
    assert!(is_newer("vv1.2.3.4", "1.2.2+build"));
    for bad in ["1.2", "1..3", "1.2.-3", "1.2.+3", "1.2.4294967296", "", "1.2.x"] {
        assert!(!is_newer(bad, "0.0.0"), "{bad}");
    }
    assert!(is_newer("+1.+2.4294967295", "1.2.0"));
}

#[test]
fn the_order_of_the_builds_makes_no_difference() {
    let one = platforms(&[("b", "https://x/arm64-b"), ("a", "https://x/arm64-a"), ("c", "")]);
    let two = platforms(&[("c", ""), ("a", "https://x/arm64-a"), ("b", "https://x/arm64-b")]);
    let url = platform_url(&one, "windows", "aarch64");
    assert_eq!(url, "https://x/arm64-a?src=updater");
    assert_eq!(url, platform_url(&two, "windows", "aarch64"));
    assert_eq!(platform_url(&one, "freebsd", "aarch64"), RELEASES_URL);
    let upper = platforms(&[("X64", "https://x/setup.exe")]);
    assert_eq!(platform_url(&upper, "windows", "x86_64"), "https://x/setup.exe?src=updater");
}

#[test]
fn an_update_is_offered_only_when_newer() {
    let latest = |version: &str| {
        Some(Latest {
            version: version.into(),
            tag: format!("v{version}"),
            platforms: platforms(&[("all", "https://x/build")]),
        })
    };
    let info = check(latest("0.2.0"), "0.1.22", "linux", "x86_64").expect("it is newer");
    assert_eq!(info.latest_version, "0.2.0");
    assert_eq!(info.latest_tag, "v0.2.0");
    assert_eq!(info.release_url, "https://x/build?src=updater");
    assert!(check(latest("0.1.22"), "0.1.22", "linux", "x86_64").is_none());
    assert!(check(None, "0.1.22", "linux", "x86_64").is_none());
}
