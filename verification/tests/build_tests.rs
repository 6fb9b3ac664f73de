use drive_fs::cache::{pc_get, FileCache};
use drive_fs::errors::BuildError;
use drive_fs::records::FolderRecord;

fn rec(id: &str, name: &str, parents: &[&str]) -> FolderRecord {
    FolderRecord {
        id: id.to_string(),
        name: name.to_string(),
        parents: parents.iter().map(|p| p.to_string()).collect(),
    }
}

fn cache_lookup(fc: &FileCache, path: &str) -> Option<String> {
    pc_get(&fc.path_cache, &path.to_string())
}

#[test]
fn three_records_build_paths() {
    // One parentless record: it is the root, and the walk registers the
    // whole chain of paths.
    let records = vec![
        rec("A", "rootdir", &[]),
        rec("B", "docs", &["A"]),
        rec("C", "report", &["B"]),
    ];
    let fc = FileCache::build(&records).expect("build should succeed");
    assert_eq!(fc.root_id, "A".to_string());
    assert_eq!(cache_lookup(&fc, "/"), Some("A".to_string()));
    assert_eq!(cache_lookup(&fc, "/docs"), Some("B".to_string()));
    assert_eq!(cache_lookup(&fc, "/docs/report"), Some("C".to_string()));
}

#[test]
fn root_synthesized_from_parent_reference() {
    // The root never appears as its own record, only as a referenced
    // parent: it is still inferred as the unique zero-parent participant.
    let records = vec![rec("B", "docs", &["A"]), rec("C", "report", &["B"])];
    let fc = FileCache::build(&records).expect("build should succeed");
    assert_eq!(fc.root_id, "A".to_string());
    assert_eq!(cache_lookup(&fc, "/docs"), Some("B".to_string()));
    assert_eq!(cache_lookup(&fc, "/docs/report"), Some("C".to_string()));
}

#[test]
fn ambiguous_root_lists_both_ids() {
    let records = vec![rec("X", "one", &[]), rec("Y", "two", &[])];
    match FileCache::build(&records) {
        Err(BuildError::AmbiguousRoot(ids)) => {
            assert_eq!(ids, vec!["X".to_string(), "Y".to_string()]);
        }
        other => panic!("expected AmbiguousRoot, got {:?}", other.is_ok()),
    }
}

#[test]
fn missing_root_when_no_zero_parent_id() {
    // Every id carries parents, so no candidate exists.
    let records = vec![rec("A", "one", &["B"]), rec("B", "two", &["A"])];
    assert!(matches!(
        FileCache::build(&records),
        Err(BuildError::MissingRoot)
    ));
}

#[test]
fn cycle_reachable_from_root_is_detected() {
    // R -> A -> B -> A: the walk must fail, not recurse forever.
    let records = vec![
        rec("A", "a", &["R", "B"]),
        rec("B", "b", &["A"]),
    ];
    match FileCache::build(&records) {
        Err(BuildError::CycleDetected(_)) => {}
        other => panic!("expected CycleDetected, got ok={}", other.is_ok()),
    }
}

#[test]
fn acyclic_records_never_report_a_cycle() {
    // A diamond: D is reachable over two aliases, but there is no cycle.
    let records = vec![
        rec("R", "top", &[]),
        rec("B", "left", &["R"]),
        rec("C", "right", &["R"]),
        rec("D", "leaf", &["B", "C"]),
    ];
    let fc = FileCache::build(&records).expect("a DAG must build");
    assert_eq!(cache_lookup(&fc, "/left/leaf"), Some("D".to_string()));
    assert_eq!(cache_lookup(&fc, "/right/leaf"), Some("D".to_string()));
}

#[test]
fn sibling_name_collision_last_write_wins() {
    let records = vec![
        rec("R", "top", &[]),
        rec("B", "docs", &["R"]),
        rec("C", "docs", &["R"]),
    ];
    let fc = FileCache::build(&records).expect("build should succeed");
    // Both children spell the same path; the later walk overwrites.
    assert_eq!(cache_lookup(&fc, "/docs"), Some("C".to_string()));
}

#[test]
fn empty_record_list_has_no_root() {
    let records: Vec<FolderRecord> = Vec::new();
    assert!(matches!(
        FileCache::build(&records),
        Err(BuildError::MissingRoot)
    ));
}

#[test]
fn empty_cache_before_load() {
    let fc = FileCache::empty();
    assert_eq!(fc.root_id, "root".to_string());
    assert_eq!(fc.graph_cache.len(), 0);
    assert_eq!(fc.path_cache.len(), 0);
}

#[test]
fn placeholder_parent_counts_as_candidate() {
    // X has its own parentless record; Y only ever appears as a parent.
    // Both are zero-parent participants, so the root is ambiguous.
    let records = vec![rec("X", "one", &[]), rec("B", "docs", &["Y"])];
    match FileCache::build(&records) {
        Err(BuildError::AmbiguousRoot(ids)) => {
            assert_eq!(ids, vec!["X".to_string(), "Y".to_string()]);
        }
        other => panic!("expected AmbiguousRoot, got ok={}", other.is_ok()),
    }
}

#[test]
fn self_parent_is_a_cycle() {
    let records = vec![rec("A", "selfish", &["R", "A"])];
    assert!(matches!(
        FileCache::build(&records),
        Err(BuildError::CycleDetected(_))
    ));
}
