use gh_actions_dep_updater::resolve::after_marketplace;
use gh_actions_dep_updater::resolve::FetchOutcome;
use gh_actions_dep_updater::resolve::MarketplaceStep;
use gh_actions_dep_updater::resolve::Resolution;
use gh_actions_dep_updater::rewrite::plan_references;
use gh_actions_dep_updater::rewrite::replace_up_to;
use gh_actions_dep_updater::rewrite::rewrite_apply;
use gh_actions_dep_updater::rewrite::RewriteError;

#[test]
fn replacement_is_bounded() {
    let out = replace_up_to("x/y@v1 x/y@v1 x/y@v1", "y@v1", "y@v2", 2);
    assert_eq!(out, "x/y@v2 x/y@v2 x/y@v1");
}

#[test]
fn replacement_with_zero_budget_is_identity() {
    let out = replace_up_to("x/y@v1", "y@v1", "y@v2", 0);
    assert_eq!(out, "x/y@v1");
}

#[test]
fn end_to_end_single_stale_reference() {
    let text = "jobs:\n  steps:\n    - uses: actions/checkout@v1\n";
    let refs = plan_references(text).unwrap();
    assert_eq!(refs.len(), 1);
    let stub = FetchOutcome::Response {
        status: 200,
        body: String::from("<span class=\"Label mx-2\">v4</span>"),
    };
    let latest = match after_marketplace(&stub) {
        MarketplaceStep::UseVersion(v) => v,
        _ => panic!("stub should resolve"),
    };
    let resolutions = vec![Resolution::Resolved(latest)];
    let (updated, report) = rewrite_apply(text, &refs, &resolutions).unwrap();
    assert!(updated.contains("uses: actions/checkout@v4"));
    assert!(!updated.contains("actions/checkout@v1"));
    assert_eq!(report.len(), 1);
    assert_eq!(report[0].owner, "actions");
    assert_eq!(report[0].name, "checkout");
    assert_eq!(report[0].from, "v1");
    assert_eq!(report[0].to, "v4");
}

#[test]
fn skipped_reference_is_absent_while_others_update() {
    let text = "uses: actions/checkout@v1\nuses: somebody/unconventional@v2\n";
    let refs = plan_references(text).unwrap();
    assert_eq!(refs.len(), 2);
    let resolutions = vec![
        Resolution::Resolved(String::from("v4")),
        Resolution::Skipped,
    ];
    let (updated, report) = rewrite_apply(text, &refs, &resolutions).unwrap();
    assert!(updated.contains("actions/checkout@v4"));
    assert!(updated.contains("somebody/unconventional@v2"));
    assert_eq!(report.len(), 1);
    assert_eq!(report[0].name, "checkout");
}

#[test]
fn failed_resolution_aborts_the_run() {
    let text = "uses: a/b@v1\nuses: c/d@v1\n";
    let refs = plan_references(text).unwrap();
    let resolutions = vec![Resolution::Resolved(String::from("v2")), Resolution::Failed];
    match rewrite_apply(text, &refs, &resolutions) {
        Err(RewriteError::Transport { index }) => assert_eq!(index, 1),
        _ => panic!("a failed resolution must abort"),
    }
}

#[test]
fn up_to_date_document_is_unchanged() {
    let text = "uses: actions/checkout@v1\n";
    let refs = plan_references(text).unwrap();
    let resolutions = vec![Resolution::Resolved(String::from("v1.9.9"))];
    let (updated, report) = rewrite_apply(text, &refs, &resolutions).unwrap();
    assert_eq!(updated, text);
    assert!(report.is_empty());
}

#[test]
fn second_pass_with_same_resolutions_is_identity() {
    let text = "uses: actions/checkout@v1\n";
    let refs = plan_references(text).unwrap();
    let resolutions = vec![Resolution::Resolved(String::from("v4"))];
    let (updated, _) = rewrite_apply(text, &refs, &resolutions).unwrap();
    let refs2 = plan_references(&updated).unwrap();
    let resolutions2 = vec![Resolution::Resolved(String::from("v4"))];
    let (updated2, report2) = rewrite_apply(&updated, &refs2, &resolutions2).unwrap();
    assert_eq!(updated2, updated);
    assert!(report2.is_empty());
}

#[test]
fn duplicates_resolve_once_and_all_occurrences_update() {
    let text = "uses: actions/checkout@v1\nuses: actions/checkout@v1\nuses: actions/checkout@v1\n";
    let refs = plan_references(text).unwrap();
    assert_eq!(refs.len(), 1);
    let resolutions = vec![Resolution::Resolved(String::from("v2"))];
    let (updated, report) = rewrite_apply(text, &refs, &resolutions).unwrap();
    assert_eq!(updated.matches("actions/checkout@v2").count(), 3);
    assert_eq!(updated.matches("checkout@v1").count(), 0);
    assert_eq!(report.len(), 1);
}

#[test]
fn substitution_stops_at_the_bound() {
    let mut text = String::new();
    for _ in 0..260 {
        text.push_str("a/b@v1\n");
    }
    let refs = plan_references(&text).unwrap();
    assert_eq!(refs.len(), 1);
    let resolutions = vec![Resolution::Resolved(String::from("v2"))];
    let (updated, _) = rewrite_apply(&text, &refs, &resolutions).unwrap();
    assert_eq!(updated.matches("b@v2").count(), 256);
    assert_eq!(updated.matches("b@v1").count(), 4);
}

#[test]
fn coincidentally_equal_pins_of_two_owners_both_rewrite() {
    let text = "uses: alpha/tool@v1\nuses: beta/tool@v1\n";
    let refs = plan_references(text).unwrap();
    assert_eq!(refs.len(), 2);
    let resolutions = vec![
        Resolution::Resolved(String::from("v2")),
        Resolution::Skipped,
    ];
    let (updated, _) = rewrite_apply(text, &refs, &resolutions).unwrap();
    assert_eq!(updated.matches("tool@v2").count(), 2);
}
