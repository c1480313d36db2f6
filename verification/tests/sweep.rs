//! Deleting what was left behind, and nothing else.

use kaas_lib::livetest::sweep::{removed, sweep};
use kaas_lib::livetest::target::{owns, Target, DEFAULT_PREFIX, READ_ONLY_ENV};

/// The assertion that stands between this tool and someone's production topic
/// list.
#[test]
fn the_filter_keeps_everything_it_does_not_own() {
    let prefix = DEFAULT_PREFIX;
    for name in [
        "__consumer_offsets",
        "__transaction_state",
        "orders",
        "events",
        "kperf-bench",
        "strimzi-internal",
        // Close enough to be dangerous, and still not ours.
        "kaaslib",
        "kaaslib-liveness",
        "kaaslib-liveness-probe",
        "live-kaaslib-topic",
        "x-kaaslib-live-topic-abc",
    ] {
        assert!(!owns(prefix, name), "{name} would have been deleted");
    }

    for name in ["kaaslib-live-smoke-abc123", "kaaslib-live-topic-1", "kaaslib-live-group-9"] {
        assert!(owns(prefix, name), "{name} would have been left behind");
    }
}

/// A prefix set to something empty or trivial must not turn the sweeper into
/// "delete everything".
#[test]
fn an_empty_prefix_still_requires_the_separator() {
    assert!(!owns("", "orders"));
    assert!(owns("", "-orders"));
}

#[test]
fn only_owned_names_are_chosen() {
    let target = Target {
        label: "test".to_owned(),
        bootstrap: vec!["localhost:9092".to_owned()],
        prefix: "mine".to_owned(),
        read_only: false,
        client_id: "test".to_owned(),
        tls: None,
        sasl: None,
    };
    let names: Vec<String> =
        ["orders", "mine-b", "mine", "minestrone", "mine-a"].map(str::to_owned).to_vec();
    assert_eq!(sweep(&target, &names), Ok(vec!["mine-b".to_owned(), "mine-a".to_owned()]));
}

#[test]
fn a_target_that_is_only_to_be_read_is_not_swept() {
    let target = Target {
        label: "test".to_owned(),
        bootstrap: vec!["localhost:9092".to_owned()],
        prefix: "mine".to_owned(),
        read_only: true,
        client_id: "test".to_owned(),
        tls: None,
        sasl: None,
    };
    assert_eq!(
        sweep(&target, &vec!["mine-a".to_owned()]),
        Err(format!("sweeping needs to create resources, but {READ_ONLY_ENV} is set"))
    );
}

#[test]
fn what_was_removed_is_listed_in_order() {
    let topics = vec![("mine-z".to_owned(), true), ("mine-y".to_owned(), false)];
    let groups = vec![("mine-g".to_owned(), true)];
    assert_eq!(
        removed(&topics, &groups),
        vec!["group mine-g".to_owned(), "topic mine-z".to_owned()]
    );
}
