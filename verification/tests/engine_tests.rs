use rusync::engine::{partition, Observation};
use rusync::store::Sync;

fn strings(v: &[&str]) -> Vec<String> {
    v.iter().map(|s| s.to_string()).collect()
}

fn obs(v: &[(&str, Option<i64>)]) -> Vec<Observation> {
    v.iter().map(|(p, t)| (p.to_string(), *t)).collect()
}

#[test]
fn partition_freshness_scenario() {
    // times 5, 3, 5, 7, 2: the candidate with time 7 ends up alone on top,
    // every other candidate is a stale target
    let entries = obs(&[
        ("c0", Some(5)),
        ("c1", Some(3)),
        ("c2", Some(5)),
        ("c3", Some(7)),
        ("c4", Some(2)),
    ]);
    let p = partition(&entries);
    assert_eq!(p.latest, 7);
    assert_eq!(p.others, strings(&["c3"]));
    // targets accumulate in reclassification order: c1 (older than 5),
    // then c0 and c2 demoted when 7 appears, then c4
    assert_eq!(p.targets, strings(&["c1", "c0", "c2", "c4"]));
}

#[test]
fn partition_all_tied_has_no_targets() {
    let entries = obs(&[("a", Some(4)), ("b", Some(4)), ("c", Some(4))]);
    let p = partition(&entries);
    assert_eq!(p.latest, 4);
    assert_eq!(p.others, strings(&["a", "b", "c"]));
    assert!(p.targets.is_empty());
}

#[test]
fn partition_unreadable_files_count_as_time_zero() {
    let entries = obs(&[("a", Some(0)), ("b", Some(3)), ("c", Some(0))]);
    let p = partition(&entries);
    assert_eq!(p.latest, 3);
    assert_eq!(p.others, strings(&["b"]));
    assert_eq!(p.targets, strings(&["a", "c"]));
}

#[test]
fn partition_skips_unstaged_candidates() {
    let with_failures = obs(&[("a", Some(2)), ("r1", None), ("b", Some(5)), ("r2", None)]);
    let without = obs(&[("a", Some(2)), ("b", Some(5))]);
    let p1 = partition(&with_failures);
    let p2 = partition(&without);
    assert_eq!(p1.latest, p2.latest);
    assert_eq!(p1.others, p2.others);
    assert_eq!(p1.targets, p2.targets);
}

#[test]
fn candidates_are_locals_then_formatted_remotes() {
    let mut g = Sync::new("g".to_string());
    g.add_files(&strings(&["/a", "h:/r", "/b"]));
    assert_eq!(g.candidates(), strings(&["/a", "/b", "h:/r"]));
}

#[test]
fn sync_plan_picks_first_freshest_as_source() {
    let mut g = Sync::new("g".to_string());
    g.add_files(&strings(&["/a", "/b", "h:/r"]));
    // /a and h:/r tie at 9, /b is stale
    let plan = g.sync(&vec![Some(9), Some(2), Some(9)]);
    assert_eq!(plan.source, Some("/a".to_string()));
    assert_eq!(plan.targets, strings(&["/b"]));
}

#[test]
fn sync_remote_staging_failure_acts_as_absent() {
    let mut with_remote = Sync::new("g".to_string());
    with_remote.add_files(&strings(&["/a", "/b", "h:/r"]));
    let plan_failed = with_remote.sync(&vec![Some(4), Some(6), None]);

    let mut without_remote = Sync::new("g".to_string());
    without_remote.add_files(&strings(&["/a", "/b"]));
    let plan_absent = without_remote.sync(&vec![Some(4), Some(6)]);

    assert_eq!(plan_failed.source, plan_absent.source);
    assert_eq!(plan_failed.targets, plan_absent.targets);
}

#[test]
fn sync_empty_group_plans_nothing() {
    let g = Sync::new("g".to_string());
    let plan = g.sync(&Vec::new());
    assert_eq!(plan.source, None);
    assert!(plan.targets.is_empty());
}

#[test]
fn sync_all_staging_failed_plans_nothing() {
    let mut g = Sync::new("g".to_string());
    g.add_files(&strings(&["h1:/a", "h2:/b"]));
    let plan = g.sync(&vec![None, None]);
    assert_eq!(plan.source, None);
    assert!(plan.targets.is_empty());
}

#[test]
fn sync_single_candidate_transfers_nothing() {
    let mut g = Sync::new("g".to_string());
    g.add_files(&strings(&["/only"]));
    let plan = g.sync(&vec![Some(5)]);
    assert_eq!(plan.source, Some("/only".to_string()));
    assert!(plan.targets.is_empty());
}
