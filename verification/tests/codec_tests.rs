use rusync::store::Sync;

fn strings(v: &[&str]) -> Vec<String> {
    v.iter().map(|s| s.to_string()).collect()
}

fn group(name: &str, members: &[&str]) -> Sync {
    let mut g = Sync::new(name.to_string());
    g.add_files(&strings(members));
    g
}

fn assert_same(a: &Sync, b: &Sync) {
    assert_eq!(a.name, b.name);
    assert_eq!(a.locals, b.locals);
    assert_eq!(a.remotes, b.remotes);
}

#[test]
fn save_all_exact_format() {
    let gs = vec![group("g", &["/a", "/b", "h:/r"])];
    assert_eq!(Sync::save_all(&gs), "$RUSEP$g$FILES$/a\n/b\nh:/r");
}

#[test]
fn save_all_empty_collection_is_empty_string() {
    assert_eq!(Sync::save_all(&Vec::new()), "");
}

#[test]
fn save_all_empty_group_has_empty_member_list() {
    let gs = vec![group("lone", &[])];
    assert_eq!(Sync::save_all(&gs), "$RUSEP$lone$FILES$");
}

#[test]
fn load_all_exact_parse() {
    let gs = Sync::load_all("$RUSEP$g$FILES$/a\n/b\nh:/r");
    assert_eq!(gs.len(), 1);
    assert_eq!(gs[0].name, "g");
    assert_eq!(gs[0].locals, strings(&["/a", "/b"]));
    assert_eq!(gs[0].remotes, vec![("h".to_string(), "/r".to_string())]);
}

#[test]
fn load_all_empty_string_is_empty_collection() {
    assert!(Sync::load_all("").is_empty());
}

#[test]
fn load_all_ignores_leading_content_without_field_separator() {
    let gs = Sync::load_all("junk$RUSEP$g$FILES$/a");
    assert_eq!(gs.len(), 1);
    assert_eq!(gs[0].name, "g");
    assert_eq!(gs[0].locals, strings(&["/a"]));
}

#[test]
fn load_all_keeps_leading_content_with_field_separator() {
    let gs = Sync::load_all("lead$FILES$/x$RUSEP$g$FILES$/a");
    assert_eq!(gs.len(), 2);
    assert_eq!(gs[0].name, "lead");
    assert_eq!(gs[0].locals, strings(&["/x"]));
    assert_eq!(gs[1].name, "g");
}

#[test]
fn round_trip_several_groups() {
    let gs = vec![
        group("alpha", &["/home/a/one", "/home/a/two", "h1:/r/one"]),
        group("beta", &[]),
        group("gamma", &["srv:/data/x:y", "/tmp/z"]),
    ];
    let loaded = Sync::load_all(&Sync::save_all(&gs));
    assert_eq!(loaded.len(), gs.len());
    for (a, b) in gs.iter().zip(loaded.iter()) {
        assert_same(a, b);
    }
}

#[test]
fn round_trip_single_member_group() {
    let gs = vec![group("solo", &["/only/path"])];
    let loaded = Sync::load_all(&Sync::save_all(&gs));
    assert_eq!(loaded.len(), 1);
    assert_same(&gs[0], &loaded[0]);
}

#[test]
fn round_trip_remote_only_group() {
    let gs = vec![group("r", &["host:/data/file"])];
    let loaded = Sync::load_all(&Sync::save_all(&gs));
    assert_eq!(loaded.len(), 1);
    assert_same(&gs[0], &loaded[0]);
}

#[test]
fn round_trip_empty_collection() {
    assert!(Sync::load_all(&Sync::save_all(&Vec::new())).is_empty());
}
