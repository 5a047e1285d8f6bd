use std::collections::BTreeMap;

use webc_resolver::{CacheTable, Lookup, ResolvedPackage, ResolverError, WebcIdentifier};

fn package(entrypoint: &str) -> ResolvedPackage {
    ResolvedPackage {
        commands: BTreeMap::new(),
        entrypoint: Some(entrypoint.to_string()),
        filesystem: Vec::new(),
    }
}

fn id(text: &str) -> WebcIdentifier {
    WebcIdentifier::parse(text).unwrap()
}

#[test]
fn concurrent_requests_start_one_resolution() {
    let mut table = CacheTable::new();
    assert_eq!(table.begin(id("ns/pkg@1.0.0")), Lookup::Fetch);
    for _ in 0..5 {
        assert_eq!(table.begin(id("ns/pkg@1.0.0")), Lookup::Wait);
    }
    assert!(table.lookup(&id("ns/pkg@1.0.0")).is_none());
}

#[test]
fn a_resolved_package_is_a_hit() {
    let mut table = CacheTable::new();
    assert_eq!(table.begin(id("ns/pkg")), Lookup::Fetch);
    table.complete(id("ns/pkg"), Ok(package("main")));
    assert_eq!(table.begin(id("ns/pkg")), Lookup::Hit);
    assert_eq!(table.begin(id("ns/pkg")), Lookup::Hit);
    let hit = table.lookup(&id("ns/pkg")).unwrap();
    assert_eq!(hit.entrypoint.as_deref(), Some("main"));
}

#[test]
fn a_failure_is_not_cached() {
    let mut table = CacheTable::new();
    assert_eq!(table.begin(id("ns/pkg")), Lookup::Fetch);
    table.complete(id("ns/pkg"), Err(ResolverError::UnknownPackage(id("ns/pkg"))));
    assert!(table.lookup(&id("ns/pkg")).is_none());
    assert_eq!(table.begin(id("ns/pkg")), Lookup::Fetch);
    table.complete(id("ns/pkg"), Err(ResolverError::Other("network down".to_string())));
    assert_eq!(table.begin(id("ns/pkg")), Lookup::Fetch);
}

#[test]
fn keys_are_whole_identifiers() {
    let mut table = CacheTable::new();
    assert_eq!(table.begin(id("ns/pkg@1.0.0")), Lookup::Fetch);
    assert_eq!(table.begin(id("ns/pkg@2.0.0")), Lookup::Fetch);
    assert_eq!(table.begin(id("ns/other@1.0.0")), Lookup::Fetch);
    table.complete(id("ns/pkg@2.0.0"), Ok(package("two")));
    assert_eq!(table.begin(id("ns/pkg@1.0.0")), Lookup::Wait);
    assert_eq!(table.begin(id("ns/pkg@2.0.0")), Lookup::Hit);
}

#[test]
fn repeated_hits_give_the_same_package() {
    let mut table = CacheTable::new();
    table.begin(id("a"));
    table.complete(id("a"), Ok(package("run")));
    table.begin(id("b"));
    table.complete(id("b"), Err(ResolverError::Other("boom".to_string())));
    let first = table.lookup(&id("a")).unwrap().entrypoint.clone();
    table.begin(id("c"));
    let second = table.lookup(&id("a")).unwrap().entrypoint.clone();
    assert_eq!(first, second);
    assert_eq!(second.as_deref(), Some("run"));
}
