use ais_tracing::services::env::{fallback_dirs, keep_first, merge_paths, shell_answer, tidy};

fn extras() -> Vec<String> {
    vec!["/opt/homebrew/bin".to_string(), "/usr/bin".to_string()]
}

#[test]
fn a_bundles_bare_path_gains_the_places_tools_actually_live() {
    let merged = merge_paths("/usr/bin:/bin", None, &extras());
    assert!(merged.split(':').any(|p| p == "/opt/homebrew/bin"));
}

#[test]
fn the_login_shell_is_believed_before_anything_else() {
    let merged = merge_paths("/usr/bin", Some("/opt/homebrew/bin:/usr/bin"), &extras());
    assert!(merged.starts_with("/opt/homebrew/bin"));
}

#[test]
fn a_directory_never_appears_twice() {
    let merged = merge_paths("/usr/bin:/bin", Some("/usr/bin:/opt/homebrew/bin"), &extras());
    let count = merged.split(':').filter(|p| *p == "/usr/bin").count();
    assert_eq!(count, 1, "got {merged}");
}

#[test]
fn order_decides_which_copy_of_a_tool_wins() {
    let merged = merge_paths("/usr/bin", Some("/opt/homebrew/bin:/usr/bin"), &extras());
    let entries: Vec<&str> = merged.split(':').collect();
    let brew = entries.iter().position(|p| *p == "/opt/homebrew/bin").unwrap();
    let usr = entries.iter().position(|p| *p == "/usr/bin").unwrap();
    assert!(brew < usr);
}

#[test]
fn empty_and_ragged_input_does_not_produce_empty_entries() {
    let merged = merge_paths("::/usr/bin: :", Some(""), &extras());
    assert!(!merged.split(':').any(|p| p.trim().is_empty()));
}

#[test]
fn nothing_at_all_still_yields_a_usable_path() {
    let merged = merge_paths("", None, &extras());
    assert!(merged.split(':').any(|p| p == "/usr/bin"));
}

#[test]
fn an_extra_entry_is_treated_as_one_whole_directory() {
    let dir = "/Users/mb/.cargo/bin";
    let merged = merge_paths("", None, &vec![dir.to_string()]);
    let out: Vec<&str> = merged.split(':').collect();
    assert_eq!(out, vec![dir]);
}

#[test]
fn the_login_shell_probe_returns_a_path_or_nothing() {
    if let Some(path) = shell_answer(true, "/usr/bin:/bin\n") {
        assert!(path.contains('/'), "got {path}");
    }
    assert_eq!(shell_answer(true, " /usr/bin:/bin\n"), Some("/usr/bin:/bin".to_string()));
    assert_eq!(shell_answer(true, " \n"), None);
    assert_eq!(shell_answer(false, "/usr/bin"), None);
}

#[test]
fn one_directory_under_several_names_appears_once() {
    let merged = merge_paths("/usr/bin/:/usr//bin:/usr/./bin:./bin:bin:/usr/bin/..", None, &vec![]);
    assert_eq!(merged, "/usr/bin/:./bin:bin:/usr/bin/..");
    for (a, b) in [
        ("/usr/bin/", "/usr//bin"),
        ("./bin", "bin"),
        ("./bin", ".//./bin"),
        ("/a/../b", "/b"),
        ("/", "//"),
        (".", "./."),
        ("/.", "/"),
    ] {
        let same = std::path::Path::new(a) == std::path::Path::new(b);
        let merged = merge_paths(&format!("{a}:{b}"), None, &vec![]);
        assert_eq!(merged == a, same, "{a} and {b}");
    }
}

#[test]
fn a_directory_that_holds_the_separator_leaves_the_path_alone() {
    let merged = merge_paths("/usr/bin", Some("/bin"), &vec!["/odd:dir".to_string()]);
    assert_eq!(merged, "/usr/bin");
}

#[test]
fn fallbacks_end_with_what_is_given() {
    let dirs = fallback_dirs(Some("/home/me/.cargo/bin"));
    assert_eq!(dirs.len(), 8);
    assert_eq!(dirs[0], "/opt/homebrew/bin");
    assert_eq!(dirs[7], "/home/me/.cargo/bin");
    assert_eq!(fallback_dirs(None).len(), 7);
}

/// The parts of a directory, where drives and backslashes are read too.
fn drive_parts(dir: &str) -> Vec<String> {
    dir.split(['\\', '/']).filter(|part| !part.is_empty()).map(|part| part.to_string()).collect()
}

#[test]
fn directories_with_a_drive_stay_whole() {
    let wbin = r"C:\Program Files\Microsoft SDKs\Azure\CLI2\wbin";
    let listed: Vec<String> = [
        r" C:\Windows\system32 ",
        "",
        wbin,
        "  ",
        r"C:\Windows\system32\",
        r"D:\tools",
        r"C:\Users\mb\.cargo\bin",
        "C:/Program Files/Microsoft SDKs/Azure/CLI2/wbin",
    ]
    .iter()
    .map(|dir| dir.to_string())
    .collect();
    let tidied = tidy(&listed);
    assert_eq!(tidied.len(), 6);
    assert_eq!(tidied[0], r"C:\Windows\system32");
    let parts: Vec<Vec<String>> = tidied.iter().map(|dir| drive_parts(dir)).collect();
    assert_eq!(
        keep_first(&tidied, &parts),
        vec![r"C:\Windows\system32", wbin, r"D:\tools", r"C:\Users\mb\.cargo\bin"]
    );
    assert_eq!(keep_first(&vec![], &vec![]), Vec::<String>::new());
}

#[test]
fn directories_taken_apart_merge_like_a_path() {
    let path = "/usr/bin/:/opt/a: :/usr//bin:/opt/./a:./a";
    let listed: Vec<String> = path.split(':').map(|dir| dir.to_string()).collect();
    let tidied = tidy(&listed);
    let parts: Vec<Vec<String>> = tidied
        .iter()
        .map(|dir| {
            std::path::Path::new(dir)
                .components()
                .map(|part| part.as_os_str().to_string_lossy().to_string())
                .collect()
        })
        .collect();
    assert_eq!(keep_first(&tidied, &parts).join(":"), merge_paths(path, None, &vec![]));
}

#[test]
fn merging_a_merged_path_changes_nothing() {
    let more = vec!["/opt/x/".to_string(), " ".to_string(), "/usr//bin".to_string()];
    for (current, login) in [
        ("/usr/bin:/bin", Some(" /opt/a :/bin/::")),
        ("", None),
        (" : :", Some("")),
        ("/opt/x", Some("/opt/./x:/b")),
    ] {
        let once = merge_paths(current, login, &more);
        assert_eq!(merge_paths(&once, None, &more), once);
    }
    assert_eq!(merge_paths("", None, &vec![]), "");
}
