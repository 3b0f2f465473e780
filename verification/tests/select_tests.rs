use rusync::select::{matching_names, select_by_folder, select_by_name};
use rusync::store::Sync;

fn strings(v: &[&str]) -> Vec<String> {
    v.iter().map(|s| s.to_string()).collect()
}

fn groups(names: &[&str]) -> Vec<Sync> {
    names.iter().map(|n| Sync::new(n.to_string())).collect()
}

#[test]
fn select_by_name_unique_match() {
    let gs = groups(&["documents", "music"]);
    assert_eq!(select_by_name(&gs, &"doc".to_string()), Some("documents".to_string()));
}

#[test]
fn select_by_name_no_match_is_none() {
    let gs = groups(&["documents", "music"]);
    assert_eq!(select_by_name(&gs, &"video".to_string()), None);
}

#[test]
fn select_by_name_ambiguous_is_none_even_on_exact_match() {
    // "doc" is itself a group name, but "documents" also starts with it:
    // ambiguity is never auto-resolved
    let gs = groups(&["doc", "documents"]);
    assert_eq!(select_by_name(&gs, &"doc".to_string()), None);
}

#[test]
fn matching_names_lists_all_prefix_matches_in_order() {
    let gs = groups(&["doc", "music", "documents"]);
    assert_eq!(matching_names(&gs, &"doc".to_string()), strings(&["doc", "documents"]));
    assert_eq!(matching_names(&gs, &"x".to_string()), Vec::<String>::new());
}

#[test]
fn select_by_folder_returns_every_matching_group() {
    let mut a = Sync::new("a".to_string());
    a.add_files(&strings(&["/data/x"]));
    let mut b = Sync::new("b".to_string());
    b.add_files(&strings(&["/other/y"]));
    let mut c = Sync::new("c".to_string());
    c.add_files(&strings(&["/data/z", "/data/w"]));
    let gs = vec![a, b, c];
    let selected = select_by_folder(&gs, &"/data".to_string());
    let names: Vec<&str> = selected.iter().map(|g| g.name.as_str()).collect();
    assert_eq!(names, vec!["a", "c"]);
}

#[test]
fn select_by_folder_remote_query() {
    let mut a = Sync::new("a".to_string());
    a.add_files(&strings(&["h:/srv/data"]));
    let mut b = Sync::new("b".to_string());
    b.add_files(&strings(&["k:/srv/data"]));
    let gs = vec![a, b];
    let selected = select_by_folder(&gs, &"h:/srv".to_string());
    let names: Vec<&str> = selected.iter().map(|g| g.name.as_str()).collect();
    assert_eq!(names, vec!["a"]);
}
