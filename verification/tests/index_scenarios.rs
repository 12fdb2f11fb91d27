use dep_index::index::build_index;
use dep_index::model::{Distribution, MarkerContext, Metadata, Requirement};

fn dist(name: u64, deps: &[(u64, Option<u64>)]) -> Distribution {
    Distribution {
        name,
        metadata: Metadata::Parsed(
            deps.iter().map(|&(name, marker)| Requirement { name, marker }).collect(),
        ),
    }
}

fn broken(name: u64) -> Distribution {
    Distribution { name, metadata: Metadata::Unavailable }
}

fn ctx(true_markers: Vec<u64>) -> MarkerContext {
    MarkerContext { true_markers }
}

const A: u64 = 1;
const B: u64 = 2;
const C: u64 = 3;
const D: u64 = 4;

#[test]
fn required_by_respects_markers() {
    // A requires B unconditionally; C requires B under a marker that is
    // false in this context; the query is {B}.
    let catalog = vec![dist(A, &[(B, None)]), dist(C, &[(B, Some(9))]), dist(B, &[])];
    let targets = vec![dist(B, &[])];
    let index = build_index(&targets, &catalog, &ctx(vec![]));
    assert_eq!(index.required_by(B), vec![A]);
    let empty: Vec<u64> = vec![];
    assert_eq!(index.requires_of(B), Some(&empty));
}

#[test]
fn query_name_absent_from_catalog_stays_absent() {
    // The surrounding layer resolves query names against the catalog; a
    // name it could not resolve never reaches the builder as a target, and
    // no map gains an entry for it.
    let missing: u64 = 99;
    let catalog = vec![dist(A, &[])];
    let targets = vec![dist(A, &[])];
    let index = build_index(&targets, &catalog, &ctx(vec![]));
    assert!(index.requires_of(missing).is_none());
    assert!(!index.forward.iter().any(|e| e.0 == missing));
    assert!(!index.requirers.iter().any(|e| e.0 == missing));
    assert!(!index.parsed.contains(&missing));
}

#[test]
fn reverse_pass_scans_whole_catalog_but_reads_target_once() {
    // A large catalog where the single query target requires nothing: the
    // scan still reads every other entry, while the target's metadata is
    // read only in the forward pass.
    let catalog: Vec<Distribution> = (1..=1000).map(|n| dist(n, &[])).collect();
    let targets = vec![dist(A, &[])];
    let index = build_index(&targets, &catalog, &ctx(vec![]));
    assert_eq!(index.parsed.len(), 1000);
    assert_eq!(index.parsed.iter().filter(|&&n| n == A).count(), 1);
    for n in 1..=1000u64 {
        assert_eq!(index.parsed.iter().filter(|&&m| m == n).count(), 1);
    }
    assert_eq!(index.required_by(A), Vec::<u64>::new());
    let empty: Vec<u64> = vec![];
    assert_eq!(index.requires_of(A), Some(&empty));
}

#[test]
fn inspected_with_no_dependencies_is_empty_not_absent() {
    let catalog = vec![dist(A, &[])];
    let targets = vec![dist(A, &[])];
    let index = build_index(&targets, &catalog, &ctx(vec![]));
    let empty: Vec<u64> = vec![];
    assert_eq!(index.requires_of(A), Some(&empty));
}

#[test]
fn unreadable_metadata_is_absent_not_empty() {
    let catalog = vec![broken(A), dist(B, &[])];
    let targets = vec![broken(A), dist(B, &[])];
    let index = build_index(&targets, &catalog, &ctx(vec![]));
    assert!(index.requires_of(A).is_none());
    let empty: Vec<u64> = vec![];
    assert_eq!(index.requires_of(B), Some(&empty));
}

#[test]
fn required_by_never_reports_the_package_itself() {
    // Even a self-referential requirement is excluded from the reverse
    // relation.
    let catalog = vec![dist(A, &[(A, None), (B, None)]), dist(B, &[])];
    let targets = vec![dist(A, &[(A, None), (B, None)]), dist(B, &[])];
    let index = build_index(&targets, &catalog, &ctx(vec![]));
    assert!(!index.required_by(A).contains(&A));
    assert_eq!(index.required_by(B), vec![A]);
}

#[test]
fn forward_and_reverse_relations_are_consistent() {
    let catalog = vec![dist(A, &[(B, None)]), dist(B, &[])];
    let targets = vec![dist(A, &[(B, None)]), dist(B, &[])];
    let index = build_index(&targets, &catalog, &ctx(vec![]));
    let expected = vec![B];
    assert_eq!(index.requires_of(A), Some(&expected));
    assert_eq!(index.required_by(B), vec![A]);
}

#[test]
fn scan_finds_requirers_outside_the_query_set() {
    // Only B is queried; the catalog scan discovers that A and D require
    // it, and reports them name-sorted.
    let catalog = vec![dist(D, &[(B, None)]), dist(A, &[(B, None)]), dist(B, &[]), dist(C, &[])];
    let targets = vec![dist(B, &[])];
    let index = build_index(&targets, &catalog, &ctx(vec![]));
    assert_eq!(index.required_by(B), vec![A, D]);
}

#[test]
fn building_twice_yields_identical_indexes() {
    let catalog = vec![
        dist(A, &[(B, None), (C, Some(7))]),
        dist(B, &[(A, None)]),
        dist(C, &[]),
        broken(D),
    ];
    let targets = vec![dist(A, &[(B, None), (C, Some(7))]), broken(D)];
    let context = ctx(vec![7]);
    let first = build_index(&targets, &catalog, &context);
    let second = build_index(&targets, &catalog, &context);
    assert_eq!(first.forward, second.forward);
    assert_eq!(first.requirers, second.requirers);
    assert_eq!(first.parsed, second.parsed);
    for n in 0..6u64 {
        assert_eq!(first.requires_of(n), second.requires_of(n));
        assert_eq!(first.required_by(n), second.required_by(n));
    }
}

#[test]
fn no_readable_target_skips_the_scan() {
    // When no query target's metadata can be read, the forward map is
    // empty and the catalog scan does not run at all.
    let catalog = vec![broken(A), dist(B, &[(A, None)])];
    let targets = vec![broken(A)];
    let index = build_index(&targets, &catalog, &ctx(vec![]));
    assert!(index.requires_of(A).is_none());
    assert_eq!(index.required_by(A), Vec::<u64>::new());
    assert_eq!(index.parsed, vec![A]);
}

#[test]
fn empty_query_set_builds_an_empty_index() {
    let catalog = vec![dist(A, &[(B, None)]), dist(B, &[])];
    let targets: Vec<Distribution> = vec![];
    let index = build_index(&targets, &catalog, &ctx(vec![]));
    assert!(index.requires_of(A).is_none());
    assert!(index.requires_of(B).is_none());
    assert_eq!(index.required_by(B), Vec::<u64>::new());
    assert_eq!(index.parsed, Vec::<u64>::new());
}

#[test]
fn failed_target_is_reattempted_by_the_scan() {
    // A target whose metadata could not be read gains no forward entry, so
    // the catalog scan reads its metadata a second time.
    let catalog = vec![broken(A), dist(D, &[]), dist(B, &[(A, None)])];
    let targets = vec![broken(A), dist(D, &[])];
    let index = build_index(&targets, &catalog, &ctx(vec![]));
    assert_eq!(index.parsed, vec![A, D, A, B]);
    assert_eq!(index.required_by(A), vec![B]);
}

#[test]
fn conditional_dependency_appears_only_under_its_marker() {
    let catalog = vec![dist(A, &[(B, Some(7))]), dist(B, &[])];
    let targets = vec![dist(A, &[(B, Some(7))])];
    let inactive = build_index(&targets, &catalog, &ctx(vec![]));
    let empty: Vec<u64> = vec![];
    assert_eq!(inactive.requires_of(A), Some(&empty));
    assert_eq!(inactive.required_by(B), Vec::<u64>::new());
    let active = build_index(&targets, &catalog, &ctx(vec![7]));
    let expected = vec![B];
    assert_eq!(active.requires_of(A), Some(&expected));
    assert_eq!(active.required_by(B), vec![A]);
}
