use std::cell::Cell;

use drive_fs::cache::FileCache;
use drive_fs::errors::{QueryError, ResolveError};
use drive_fs::parse_path;
use drive_fs::records::FolderRecord;

fn rec(id: &str, name: &str, parents: &[&str]) -> FolderRecord {
    FolderRecord {
        id: id.to_string(),
        name: name.to_string(),
        parents: parents.iter().map(|p| p.to_string()).collect(),
    }
}

fn base_cache() -> FileCache {
    FileCache::build(&vec![
        rec("A", "rootdir", &[]),
        rec("B", "docs", &["A"]),
        rec("C", "report", &["B"]),
    ])
    .expect("build should succeed")
}

fn no_lookup(_: String) -> Result<Vec<FolderRecord>, QueryError> {
    panic!("the cache already holds this path: no lookup may fire");
}

#[test]
fn cached_path_resolves_without_lookup() {
    let mut fc = base_cache();
    let id = fc.resolve("/docs/report", no_lookup).expect("cached path");
    assert_eq!(id, "C".to_string());
    let root = fc.resolve("/", no_lookup).expect("the bare root resolves");
    assert_eq!(root, "A".to_string());
}

#[test]
fn double_slash_is_malformed_whatever_the_cache_holds() {
    let mut fc = base_cache();
    assert!(matches!(
        fc.resolve("/docs//report", no_lookup),
        Err(ResolveError::MalformedPath)
    ));
    let mut empty = FileCache::empty();
    assert!(matches!(
        empty.resolve("/docs//report", no_lookup),
        Err(ResolveError::MalformedPath)
    ));
}

#[test]
fn relative_and_trailing_paths_are_malformed() {
    let mut fc = base_cache();
    assert!(matches!(
        fc.resolve("docs/report", no_lookup),
        Err(ResolveError::MalformedPath)
    ));
    assert!(matches!(
        fc.resolve("", no_lookup),
        Err(ResolveError::MalformedPath)
    ));
    assert!(matches!(
        fc.resolve("/docs/", no_lookup),
        Err(ResolveError::MalformedPath)
    ));
}

#[test]
fn missing_segment_triggers_exactly_one_scoped_lookup() {
    let mut fc = base_cache();
    let calls = Cell::new(0usize);
    let asked = Cell::new(false);
    let lookup = |parent: String| {
        calls.set(calls.get() + 1);
        asked.set(parent == "A");
        Ok(vec![
            rec("S", "shared", &["A"]),
            rec("F", "file", &["S"]),
        ])
    };
    let id = fc.resolve("/shared", &lookup).expect("merged child resolves");
    assert_eq!(id, "S".to_string());
    assert_eq!(calls.get(), 1, "exactly one lookup of the root");
    assert!(asked.get(), "the lookup was scoped to the current id");
}

#[test]
fn absent_child_fails_not_found_with_the_full_path() {
    let mut fc = base_cache();
    let calls = Cell::new(0usize);
    let lookup = |_parent: String| {
        calls.set(calls.get() + 1);
        Ok(vec![rec("P", "photos", &["A"])])
    };
    match fc.resolve("/shared/file", &lookup) {
        Err(ResolveError::NotFound(p)) => assert_eq!(p, "/shared/file".to_string()),
        other => panic!("expected NotFound, got ok={}", other.is_ok()),
    }
    assert_eq!(calls.get(), 1, "the miss asked once, then gave up");
    // The merged sibling stays cached: extension survives the failure.
    let id = fc.resolve("/photos", no_lookup).expect("merged sibling");
    assert_eq!(id, "P".to_string());
}

#[test]
fn resolving_twice_hits_the_extended_cache() {
    let mut fc = base_cache();
    let calls = Cell::new(0usize);
    let lookup = |_parent: String| {
        calls.set(calls.get() + 1);
        Ok(vec![rec("S", "shared", &["A"]), rec("F", "file", &["S"])])
    };
    let first = fc.resolve("/shared/file", &lookup).expect("first resolution");
    let after_first = calls.get();
    let second = fc.resolve("/shared/file", &lookup).expect("second resolution");
    assert_eq!(first, second);
    assert_eq!(first, "F".to_string());
    assert!(after_first <= 2, "one lookup per missing segment at most");
    assert_eq!(calls.get(), after_first, "the second resolution is all cache hits");
}

#[test]
fn failed_lookup_aborts_and_keeps_the_cache() {
    let mut fc = base_cache();
    let lookup = |_parent: String| -> Result<Vec<FolderRecord>, QueryError> {
        Err(QueryError { message: "transport down".to_string() })
    };
    assert!(matches!(
        fc.resolve("/shared", &lookup),
        Err(ResolveError::Lookup(_))
    ));
    // Previously cached entries are intact.
    let id = fc.resolve("/docs/report", no_lookup).expect("old entries stay");
    assert_eq!(id, "C".to_string());
}

#[test]
fn merge_children_registers_addressable_children() {
    let mut fc = base_cache();
    fc.merge_children(
        &"B".to_string(),
        &"/docs".to_string(),
        &vec![
            rec("D", "draft", &["B"]),
            rec("E", "else/where", &["B"]),
            rec("F", "file", &["S"]),
        ],
    );
    let mut fc2 = fc.clone();
    // The cleanly named child of B is cached under the prefix.
    assert_eq!(
        fc2.resolve("/docs/draft", no_lookup).expect("merged child"),
        "D".to_string()
    );
    // A name carrying a separator is unaddressable and stays out of the
    // cache; a child of another parent gains no path either.
    let fail = |_: String| Err(drive_fs::errors::QueryError { message: "no remote".to_string() });
    assert!(fc.resolve("/docs/else/where", &fail).is_err());
}

#[test]
fn parse_path_splits_segments() {
    let segs = parse_path("/docs/report").expect("well-formed");
    assert_eq!(segs, vec!["docs".to_string(), "report".to_string()]);
    assert_eq!(parse_path("/").expect("the bare root"), Vec::<String>::new());
    assert!(parse_path("//").is_none());
    assert!(parse_path("docs").is_none());
    assert!(parse_path("/a//b").is_none());
    assert!(parse_path("/a/").is_none());
}

#[test]
fn merge_collision_later_record_wins() {
    let mut fc = base_cache();
    fc.merge_children(
        &"B".to_string(),
        &"/docs".to_string(),
        &vec![rec("D1", "draft", &["B"]), rec("D2", "draft", &["B"])],
    );
    // Two children of B spell the same path: the later record's id wins.
    assert_eq!(
        fc.resolve("/docs/draft", no_lookup).expect("merged child"),
        "D2".to_string()
    );
}
