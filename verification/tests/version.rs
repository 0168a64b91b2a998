use gh_actions_dep_updater::version::get_version_at_depth;
use gh_actions_dep_updater::version::get_version_depth;
use gh_actions_dep_updater::version::is_stale;

#[test]
fn depth_of_major_only() {
    assert_eq!(get_version_depth("v1"), 0);
}

#[test]
fn depth_of_major_minor() {
    assert_eq!(get_version_depth("v1.2"), 1);
}

#[test]
fn depth_of_major_minor_patch() {
    assert_eq!(get_version_depth("v1.2.3"), 2);
}

#[test]
fn truncate_to_major() {
    assert_eq!(get_version_at_depth("v1.2.3", 0), "1");
}

#[test]
fn truncate_to_minor() {
    assert_eq!(get_version_at_depth("v1.2.3", 1), "1.2");
}

#[test]
fn truncate_no_padding() {
    assert_eq!(get_version_at_depth("v1", 2), "1");
}

#[test]
fn truncate_without_v_prefix() {
    assert_eq!(get_version_at_depth("1.4.2", 1), "1.4");
}

#[test]
fn major_pin_not_churned_by_patch_releases() {
    assert!(!is_stale("v1", "v1.9.9"));
}

#[test]
fn minor_pin_stale_on_minor_bump() {
    assert!(is_stale("v1.2", "v1.3.0"));
}

#[test]
fn stale_on_major_bump() {
    assert!(is_stale("v1", "v2"));
}

#[test]
fn not_stale_on_equal_versions() {
    assert!(!is_stale("v1.2.3", "v1.2.3"));
}

#[test]
fn stale_detects_any_difference_including_downgrade() {
    assert!(is_stale("v2", "v1.9"));
}
