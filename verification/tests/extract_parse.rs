use gh_actions_dep_updater::reference::parse_reference;
use gh_actions_dep_updater::token::extract_references;

#[test]
fn extracts_tokens_in_first_seen_order() {
    let text = "jobs:\n  - uses: actions/checkout@v1.2.3\n  - uses: mathieudutour/github-tag-action@v1\n";
    let tokens = extract_references(text);
    assert_eq!(tokens.len(), 2);
    assert_eq!(tokens[0], "actions/checkout@v1.2.3");
    assert_eq!(tokens[1], "mathieudutour/github-tag-action@v1");
}

#[test]
fn extracts_nothing_from_plain_text() {
    let tokens = extract_references("name: CI\non: push\n");
    assert!(tokens.is_empty());
}

#[test]
fn duplicate_tokens_collapse_to_one() {
    let text = "uses: actions/checkout@v1\nuses: actions/checkout@v1\n";
    let tokens = extract_references(text);
    assert_eq!(tokens.len(), 1);
    assert_eq!(tokens[0], "actions/checkout@v1");
}

#[test]
fn same_action_at_two_versions_stays_two_references() {
    let text = "uses: actions/checkout@v1\nuses: actions/checkout@v2\n";
    let tokens = extract_references(text);
    assert_eq!(tokens.len(), 2);
}

#[test]
fn extracts_subpath_token() {
    let tokens = extract_references("uses: docker/login-action/something@v2\n");
    assert_eq!(tokens.len(), 1);
    assert_eq!(tokens[0], "docker/login-action/something@v2");
}

#[test]
fn version_keeps_at_most_three_segments() {
    let tokens = extract_references("uses: a/b@v1.2.3.4\n");
    assert_eq!(tokens.len(), 1);
    assert_eq!(tokens[0], "a/b@v1.2.3");
}

#[test]
fn parses_plain_token() {
    let d = parse_reference("actions/checkout@v1").unwrap();
    assert_eq!(d.owner, "actions");
    assert_eq!(d.name, "checkout");
    assert!(d.subpath.is_none());
    assert_eq!(d.version, "v1");
}

#[test]
fn parses_subpath_token() {
    let d = parse_reference("docker/login-action/something@v2").unwrap();
    assert_eq!(d.owner, "docker");
    assert_eq!(d.name, "login-action");
    assert_eq!(d.subpath.as_deref(), Some("something"));
    assert_eq!(d.version, "v2");
}

#[test]
fn rejects_token_without_slash() {
    assert!(parse_reference("checkout@v1").is_err());
}

#[test]
fn rejects_token_without_at() {
    assert!(parse_reference("actions/checkout").is_err());
}

#[test]
fn rejects_empty_owner() {
    assert!(parse_reference("/checkout@v1").is_err());
}

#[test]
fn extracted_tokens_parse_and_round_trip() {
    let text = "uses: actions/checkout@v1.2\nuses: docker/login-action/x@v2\n";
    for token in extract_references(text) {
        let d = parse_reference(&token).unwrap();
        let recomposed = match d.subpath {
            Some(sp) => format!("{}/{}/{}@{}", d.owner, d.name, sp, d.version),
            None => format!("{}/{}@{}", d.owner, d.name, d.version),
        };
        assert_eq!(recomposed, token);
    }
}
