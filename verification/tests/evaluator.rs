use dep_index::model::{MarkerContext, Requirement, active_dependency_names, requirement_active};

fn req(name: u64, marker: Option<u64>) -> Requirement {
    Requirement { name, marker }
}

fn ctx(true_markers: Vec<u64>) -> MarkerContext {
    MarkerContext { true_markers }
}

#[test]
fn no_marker_is_always_active() {
    let reqs = vec![req(5, None)];
    assert_eq!(active_dependency_names(&reqs, &ctx(vec![])), vec![5]);
    assert!(requirement_active(&req(5, None), &ctx(vec![])));
}

#[test]
fn false_marker_filters_requirement_out() {
    let reqs = vec![req(3, Some(7)), req(4, None)];
    assert_eq!(active_dependency_names(&reqs, &ctx(vec![])), vec![4]);
    assert!(!requirement_active(&req(3, Some(7)), &ctx(vec![])));
}

#[test]
fn true_marker_keeps_requirement() {
    let reqs = vec![req(3, Some(7)), req(4, None)];
    assert_eq!(active_dependency_names(&reqs, &ctx(vec![7])), vec![3, 4]);
    assert!(requirement_active(&req(3, Some(7)), &ctx(vec![7])));
}

#[test]
fn names_are_sorted_and_deduplicated() {
    let reqs = vec![req(3, None), req(1, None), req(3, None), req(2, None), req(1, Some(9))];
    assert_eq!(active_dependency_names(&reqs, &ctx(vec![9])), vec![1, 2, 3]);
}

#[test]
fn empty_requirement_list_yields_no_names() {
    let reqs: Vec<Requirement> = vec![];
    assert_eq!(active_dependency_names(&reqs, &ctx(vec![])), Vec::<u64>::new());
}

#[test]
fn marker_context_evaluates_membership() {
    let c = ctx(vec![2, 4]);
    assert!(c.evaluate(2));
    assert!(c.evaluate(4));
    assert!(!c.evaluate(3));
}
