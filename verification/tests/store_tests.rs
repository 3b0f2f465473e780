use rusync::store::{MatchingResult, Sync};

fn strings(v: &[&str]) -> Vec<String> {
    v.iter().map(|s| s.to_string()).collect()
}

#[test]
fn new_group_is_empty() {
    let g = Sync::new("work".to_string());
    assert_eq!(g.name, "work");
    assert!(g.locals.is_empty());
    assert!(g.remotes.is_empty());
}

#[test]
fn add_files_splits_and_reports_in_order() {
    let mut g = Sync::new("g".to_string());
    let out = g.add_files(&strings(&["b:/x", "/local/a", "host:path:deep", "/other"]));
    assert_eq!(out, vec![true, false, true, false]);
    assert_eq!(g.locals, strings(&["/local/a", "/other"]));
    assert_eq!(
        g.remotes,
        vec![
            ("b".to_string(), "/x".to_string()),
            ("host".to_string(), "path:deep".to_string()),
        ]
    );
}

#[test]
fn add_files_result_length_matches_input_length() {
    let mut g = Sync::new("g".to_string());
    let inputs = strings(&["/a", "h:/b", "/c", "/d", "x:y"]);
    let out = g.add_files(&inputs);
    assert_eq!(out.len(), inputs.len());
}

#[test]
fn add_files_allows_duplicates() {
    let mut g = Sync::new("g".to_string());
    g.add_files(&strings(&["/a", "/a"]));
    assert_eq!(g.locals, strings(&["/a", "/a"]));
}

#[test]
fn remove_files_exact_match_only() {
    let mut g = Sync::new("g".to_string());
    g.add_files(&strings(&["/a/b", "h:/r"]));
    // a prefix of a stored member is not an exact match
    let out = g.remove_files(&strings(&["/a"]));
    assert_eq!(out, vec![(false, false)]);
    assert_eq!(g.locals, strings(&["/a/b"]));
    assert_eq!(g.remotes.len(), 1);
}

#[test]
fn remove_files_nonexistent_leaves_group_unchanged() {
    let mut g = Sync::new("g".to_string());
    g.add_files(&strings(&["/a", "h:/r"]));
    let out = g.remove_files(&strings(&["/zzz", "nohost:/nowhere"]));
    assert_eq!(out, vec![(false, false), (false, true)]);
    assert_eq!(g.locals, strings(&["/a"]));
    assert_eq!(g.remotes, vec![("h".to_string(), "/r".to_string())]);
}

#[test]
fn remove_files_removes_local_and_remote() {
    let mut g = Sync::new("g".to_string());
    g.add_files(&strings(&["/a", "/b", "h:/r"]));
    let out = g.remove_files(&strings(&["/a", "h:/r"]));
    assert_eq!(out, vec![(true, false), (true, true)]);
    assert_eq!(g.locals, strings(&["/b"]));
    assert!(g.remotes.is_empty());
}

#[test]
fn remove_files_removes_every_duplicate() {
    let mut g = Sync::new("g".to_string());
    g.add_files(&strings(&["/a", "/b", "/a"]));
    let out = g.remove_files(&strings(&["/a"]));
    assert_eq!(out, vec![(true, false)]);
    assert_eq!(g.locals, strings(&["/b"]));
}

#[test]
fn name_matches_is_prefix_test() {
    let g = Sync::new("documents".to_string());
    assert!(g.name_matches(&"doc".to_string()));
    assert!(g.name_matches(&"documents".to_string()));
    assert!(!g.name_matches(&"documentsx".to_string()));
    assert!(!g.name_matches(&"dod".to_string()));
}

#[test]
fn has_file_inside_local_and_remote() {
    let mut g = Sync::new("g".to_string());
    g.add_files(&strings(&["/home/me/docs/file.txt", "h:/srv/data/file.txt"]));
    assert!(g.has_file_inside("/home/me/docs"));
    assert!(g.has_file_inside("h:/srv/data"));
    // host must match exactly; a host prefix is not enough
    assert!(!g.has_file_inside("hh:/srv/data"));
    assert!(!g.has_file_inside("/var"));
}

#[test]
fn matching_files_local() {
    let mut g = Sync::new("g".to_string());
    g.add_files(&strings(&["/a/one", "/b/two", "/a/three"]));
    match g.matching_files("/a") {
        MatchingResult::Local(v) => assert_eq!(v, strings(&["/a/one", "/a/three"])),
        MatchingResult::Remote(_) => panic!("expected local matches"),
    }
}

#[test]
fn matching_files_remote_formats_host_path() {
    let mut g = Sync::new("g".to_string());
    g.add_files(&strings(&["h:/a/one", "h:/b/two", "k:/a/three"]));
    match g.matching_files("h:/a") {
        MatchingResult::Remote(v) => assert_eq!(v, strings(&["h:/a/one"])),
        MatchingResult::Local(_) => panic!("expected remote matches"),
    }
}
