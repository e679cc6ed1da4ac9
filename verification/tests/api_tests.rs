use fleet_suggest::api::{
    exhausted_message, hazard_orderings, node_list, on_reply, plan_suggestion, shows_progress, Reply,
};

fn strings(v: &[&str]) -> Vec<String> {
    v.iter().map(|s| s.to_string()).collect()
}

fn lists(v: &[&[&str]]) -> Vec<Vec<String>> {
    v.iter().map(|o| strings(o)).collect()
}

#[test]
fn orderings_of_two_ids() {
    let r = hazard_orderings(&strings(&["a", "b"]));
    assert_eq!(r, lists(&[&["a", "b"], &["b", "a"]]));
}

#[test]
fn orderings_start_with_given_order() {
    let r = hazard_orderings(&strings(&["b", "a", "c"]));
    assert_eq!(
        r,
        lists(&[
            &["b", "a", "c"],
            &["b", "c", "a"],
            &["a", "b", "c"],
            &["a", "c", "b"],
            &["c", "b", "a"],
            &["c", "a", "b"],
        ])
    );
}

#[test]
fn orderings_skip_repeated_node_lists() {
    let r = hazard_orderings(&strings(&["a", "a"]));
    assert_eq!(r, lists(&[&["a", "a"]]));
    // "ab"+"c"+"a"+"bc" and "a"+"bc"+"ab"+"c" join to the same text and are sent once.
    let r = hazard_orderings(&strings(&["ab", "c", "a", "bc"]));
    assert_eq!(r.len(), 23);
    assert_eq!(r[0], strings(&["ab", "c", "a", "bc"]));
    assert_eq!(r[16], strings(&["a", "bc", "c", "ab"]));
    assert_eq!(r[22], strings(&["bc", "a", "c", "ab"]));
    let keys: std::collections::HashSet<String> = r.iter().map(|o| o.join("")).collect();
    assert_eq!(keys.len(), r.len());
}

#[test]
fn orderings_of_zero_or_one_id() {
    assert_eq!(hazard_orderings(&Vec::new()), vec![Vec::<String>::new()]);
    assert_eq!(hazard_orderings(&strings(&["g1_b2"])), lists(&[&["g1_b2"]]));
}

#[test]
fn plan_tries_every_ordering_up_to_the_cap() {
    let ids = strings(&["a", "b", "c"]);
    let plan = plan_suggestion(&ids);
    assert_eq!(plan.orderings.len(), 6);
    assert_eq!(plan.source_count, 3);
    assert!(shows_progress(&plan));
    assert_eq!(node_list(&plan, 0), "abc");
    assert_eq!(node_list(&plan, 5), "cba");
}

#[test]
fn plan_over_the_cap_tries_only_the_given_order() {
    let ids = strings(&["a", "b", "c", "d", "e", "f", "g"]);
    let plan = plan_suggestion(&ids);
    assert_eq!(plan.orderings, vec![ids.clone()]);
    assert_eq!(plan.source_count, 7);
    assert!(!shows_progress(&plan));
    assert_eq!(node_list(&plan, 0), "abcdefg");
    assert_eq!(
        exhausted_message(&plan),
        "Server returned 404 (and 7 hazards > 6, so permutations weren't tried)"
    );
}

#[test]
fn exhausted_messages() {
    let plan = plan_suggestion(&strings(&["a", "b"]));
    assert_eq!(exhausted_message(&plan), "Server returned 404 for all 2 hazard orderings");
    let plan = plan_suggestion(&strings(&["a"]));
    assert_eq!(exhausted_message(&plan), "Server returned 404 for all 1 hazard order");
    assert!(!shows_progress(&plan));
}

#[test]
fn replies_decide_what_comes_next() {
    let plan = plan_suggestion(&strings(&["a", "b"]));
    assert!(matches!(on_reply(&plan, 1, true, 200), Reply::Accept { attempt: 2, total: 2 }));
    assert!(matches!(on_reply(&plan, 0, false, 404), Reply::TryNext));
    match on_reply(&plan, 0, false, 500) {
        Reply::Fail(m) => assert_eq!(m, "Server returned 500"),
        _ => panic!("expected a failure"),
    }
}
