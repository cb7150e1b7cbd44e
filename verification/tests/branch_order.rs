use luminatti::branch_order::order_branches;

#[test]
fn the_current_branch_leads_and_the_rest_sort_without_case() {
    let names = vec!["zeta", "Main", "alpha", "feature", "Beta"].into_iter().map(String::from).collect();
    let ordered = order_branches(names, "feature");
    assert_eq!(ordered, ["feature", "alpha", "Beta", "Main", "zeta"]);
}

#[test]
fn branches_equal_without_case_keep_their_order() {
    let names = vec!["B", "a", "b", "A"].into_iter().map(String::from).collect();
    assert_eq!(order_branches(names, "none"), ["a", "A", "B", "b"]);
}
