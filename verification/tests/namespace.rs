//! Namespaces, and the directories they stand for.

use mdkb::store::namespace::{
    resolve, store_dir, store_dir_for, under_test_runner, DEFAULT_NAMESPACE, TEST_NAMESPACE,
    TEST_RUNNER_MARKERS,
};

#[test]
fn no_signal_means_the_default_store() {
    assert_eq!(resolve(None, false).unwrap(), None);
    assert_eq!(resolve(Some(""), false).unwrap(), None);
    assert_eq!(resolve(Some("  "), false).unwrap(), None);
}

#[test]
fn a_test_runner_marker_selects_the_test_namespace_unasked() {
    assert_eq!(
        resolve(None, true).unwrap().as_deref(),
        Some(TEST_NAMESPACE)
    );
}

#[test]
fn an_explicit_name_wins_over_the_runner_marker() {
    assert_eq!(
        resolve(Some("scratch"), true).unwrap().as_deref(),
        Some("scratch")
    );
    assert_eq!(
        resolve(Some(" scratch "), false).unwrap().as_deref(),
        Some("scratch"),
        "surrounding whitespace is not part of the name"
    );
}

#[test]
fn default_opts_a_test_process_back_into_the_real_store() {
    assert_eq!(resolve(Some(DEFAULT_NAMESPACE), true).unwrap(), None);
}

#[test]
fn a_name_that_could_leave_the_namespaces_directory_is_refused() {
    for bad in ["../escape", "a/b", "a\\b", ".", "..", "with space", "é"] {
        assert!(
            resolve(Some(bad), false).is_err(),
            "{bad:?} must be refused"
        );
    }
    assert!(resolve(Some(&"x".repeat(65)), false).is_err());
}

#[test]
fn store_dir_nests_a_namespace_under_the_default_store() {
    let root = "/repo";
    assert_eq!(store_dir_for(root, None), "/repo/.mdkb");
    assert_eq!(
        store_dir_for(root, Some("test")),
        "/repo/.mdkb/namespaces/test"
    );
}

#[test]
fn a_leading_dash_is_no_name() {
    assert!(resolve(Some("-rf"), false).is_err());
    assert_eq!(resolve(Some("a-b_9"), false).unwrap().as_deref(), Some("a-b_9"));
}

#[test]
fn a_refusal_names_the_variable_and_the_value() {
    assert_eq!(
        resolve(Some("a b"), false).unwrap_err(),
        "invalid MDKB_NAMESPACE 'a b': use up to 64 characters from [A-Za-z0-9_-]"
    );
    assert!(resolve(Some(&"x".repeat(64)), false).is_ok());
}

#[test]
fn a_marker_set_to_nothing_is_none() {
    assert!(!under_test_runner(&[None, Some(0), None, None]));
    assert!(under_test_runner(&[None, Some(0), None, Some(1)]));
    assert_eq!(TEST_RUNNER_MARKERS.len(), 4);
}

#[test]
fn two_namespaces_are_two_directories_beneath_the_default_store() {
    let default = store_dir("/repo", None, false).unwrap();
    let a = store_dir("/repo", Some("a"), false).unwrap();
    let b = store_dir("/repo", Some("b"), true).unwrap();
    assert_eq!(default, "/repo/.mdkb");
    assert_eq!(a, "/repo/.mdkb/namespaces/a");
    assert_eq!(b, "/repo/.mdkb/namespaces/b");
    assert_eq!(store_dir("/", None, true).unwrap(), "/.mdkb/namespaces/test");
    assert!(store_dir("/repo", Some(".."), false).is_err());
}
