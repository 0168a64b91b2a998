use gh_actions_dep_updater::reference::parse_reference;
use gh_actions_dep_updater::resolve::after_marketplace;
use gh_actions_dep_updater::resolve::after_releases;
use gh_actions_dep_updater::resolve::extract_marketplace_version;
use gh_actions_dep_updater::resolve::extract_release_tag;
use gh_actions_dep_updater::resolve::marketplace_url;
use gh_actions_dep_updater::resolve::releases_url;
use gh_actions_dep_updater::resolve::FetchOutcome;
use gh_actions_dep_updater::resolve::MarketplaceStep;
use gh_actions_dep_updater::resolve::Resolution;

#[test]
fn urls_use_owner_and_name_only() {
    let d = parse_reference("docker/login-action/something@v2").unwrap();
    assert_eq!(
        marketplace_url(&d),
        "https://github.com/marketplace/actions/login-action"
    );
    assert_eq!(
        releases_url(&d),
        "https://github.com/docker/login-action/releases"
    );
}

#[test]
fn marketplace_badge_is_extracted() {
    let body = "<div><span class=\"Label mx-2 text-gray\">v4.2.2</span></div>";
    assert_eq!(extract_marketplace_version(body).as_deref(), Some("v4.2.2"));
}

#[test]
fn marketplace_span_without_marker_class_is_ignored() {
    let body = "<span class=\"other\">v1</span><span class=\"a mx-2 b\">v3</span>";
    assert_eq!(extract_marketplace_version(body).as_deref(), Some("v3"));
}

#[test]
fn marketplace_without_badge_yields_nothing() {
    assert_eq!(extract_marketplace_version("<html>no badge</html>"), None);
}

#[test]
fn first_release_link_tag_is_extracted() {
    let body = "<a href=\"/actions/checkout/releases/tag/v4.2.2\">v4.2.2</a><a href=\"/actions/checkout/releases/tag/v4.2.1\">older</a>";
    assert_eq!(extract_release_tag(body).as_deref(), Some("v4.2.2"));
}

#[test]
fn release_link_with_trailing_slash_is_skipped() {
    let body = "<a href=\"/actions/\"><a href=\"/actions/checkout/releases/tag/v2\">";
    assert_eq!(extract_release_tag(body).as_deref(), Some("v2"));
}

#[test]
fn releases_page_without_links_yields_nothing() {
    assert_eq!(extract_release_tag("<html></html>"), None);
}

#[test]
fn marketplace_success_with_badge_resolves() {
    let out = FetchOutcome::Response {
        status: 200,
        body: String::from("<span class=\"mx-2\">v4</span>"),
    };
    match after_marketplace(&out) {
        MarketplaceStep::UseVersion(v) => assert_eq!(v, "v4"),
        _ => panic!("expected a resolved version"),
    }
}

#[test]
fn marketplace_error_status_falls_back() {
    let out = FetchOutcome::Response { status: 404, body: String::from("gone") };
    assert!(matches!(after_marketplace(&out), MarketplaceStep::TryFallback));
}

#[test]
fn marketplace_page_without_badge_falls_back() {
    let out = FetchOutcome::Response { status: 200, body: String::from("<html></html>") };
    assert!(matches!(after_marketplace(&out), MarketplaceStep::TryFallback));
}

#[test]
fn marketplace_transport_failure_aborts() {
    assert!(matches!(after_marketplace(&FetchOutcome::Failure), MarketplaceStep::Abort));
}

#[test]
fn releases_success_resolves_first_tag() {
    let out = FetchOutcome::Response {
        status: 200,
        body: String::from("<a href=\"/o/n/releases/tag/v5\">"),
    };
    match after_releases(&out) {
        Resolution::Resolved(v) => assert_eq!(v, "v5"),
        _ => panic!("expected a resolved version"),
    }
}

#[test]
fn releases_not_found_skips_reference() {
    let out = FetchOutcome::Response { status: 404, body: String::from("not here") };
    assert!(matches!(after_releases(&out), Resolution::Skipped));
}

#[test]
fn releases_server_error_fails_run() {
    let out = FetchOutcome::Response { status: 500, body: String::from("boom") };
    assert!(matches!(after_releases(&out), Resolution::Failed));
}

#[test]
fn releases_transport_failure_fails_run() {
    assert!(matches!(after_releases(&FetchOutcome::Failure), Resolution::Failed));
}

#[test]
fn releases_page_without_tags_skips_reference() {
    let out = FetchOutcome::Response { status: 200, body: String::from("<html></html>") };
    assert!(matches!(after_releases(&out), Resolution::Skipped));
}
