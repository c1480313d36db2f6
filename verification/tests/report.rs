//! What a run prints.

use kaas_lib::livetest::report::{one_line, Outcome, Report};

fn set(report: &mut Report, key: &str, value: &str) {
    report.set(key.to_owned(), value.to_owned());
}

#[test]
fn output_is_sorted_so_diffs_are_stable() {
    let mut report = Report::new();
    set(&mut report, "zeta", "1");
    set(&mut report, "alpha", "2");
    set(&mut report, "mid", "3");
    assert_eq!(report.render(), "alpha = 2\nmid = 3\nzeta = 1\n");
}

#[test]
fn recording_the_same_key_twice_keeps_the_last_value() {
    let mut report = Report::new();
    set(&mut report, "k", "first");
    set(&mut report, "k", "second");
    assert_eq!(report.get("k"), Some("second"));
    assert_eq!(report.len(), 1);
}

#[test]
fn absence_is_recorded_rather_than_omitted() {
    let mut report = Report::new();
    report.set_opt("present".to_owned(), Some("7".to_owned()));
    report.set_opt("absent".to_owned(), None);
    // Both keys exist, so a diff distinguishes "not supported" from "not
    // probed".
    assert_eq!(report.get("present"), Some("7"));
    assert_eq!(report.get("absent"), Some("-"));
    assert!(report.contains("absent"));
}

#[test]
fn notes_are_separate_from_the_diffable_body() {
    let mut report = Report::new();
    set(&mut report, "k", "v");
    report.note("took 3s".to_owned());
    assert_eq!(report.render(), "k = v\n");
    assert_eq!(report.render_notes(), "# took 3s\n");
}

#[test]
fn a_multiline_broker_message_cannot_corrupt_the_report() {
    assert_eq!(one_line(" a\nb\r\nc "), "a\\nb\\r\\nc");
    assert_eq!(one_line("back\\slash"), "back\\\\slash");
}

/// Keys are ordered by their characters, as a sorted map orders them.
#[test]
fn the_order_is_that_of_the_characters() {
    let mut report = Report::new();
    for key in ["b.10", "b.2", "b", "a", "B", "bä", "b-"] {
        set(&mut report, key, "x");
    }
    let rendered = report.render();
    let keys: Vec<&str> = rendered.lines().map(|line| line.split(" = ").next().unwrap()).collect();
    let mut sorted = keys.clone();
    sorted.sort();
    assert_eq!(keys, sorted);
    assert_eq!(keys.len(), 7);
}

/// The same facts render the same, in whatever order they were learned.
#[test]
fn learning_order_does_not_show() {
    let facts = [("c", "3"), ("a", "1"), ("b", "2")];
    let mut forward = Report::new();
    let mut backward = Report::new();
    for (key, value) in facts {
        set(&mut forward, key, value);
    }
    for (key, value) in facts.iter().rev() {
        set(&mut backward, key, value);
    }
    assert_eq!(forward.render(), backward.render());
}

#[test]
fn numbers_and_flags_are_spelled_out() {
    let mut report = Report::new();
    report.set_count("count", u64::MAX);
    report.set_number("low", i64::MIN);
    report.set_flag("yes", true);
    report.set_flag("no", false);
    report.set_text("text", "as it is");
    assert_eq!(
        report.render(),
        "count = 18446744073709551615\nlow = -9223372036854775808\nno = false\n\
         text = as it is\nyes = true\n"
    );
    assert!(!report.contains("missing"));
    assert_eq!(report.get("missing"), None);
}

#[test]
fn an_outcome_keeps_the_report_of_a_failed_run() {
    let mut report = Report::new();
    set(&mut report, "k", "v");
    let failed = Outcome::failed(report, "why".to_owned());
    assert_eq!(failed.report.len(), 1);
    assert_eq!(failed.result, Err("why".to_owned()));
    assert_eq!(Outcome::ok(Report::new()).result, Ok(()));
    let judged = Outcome::from_result(Report::new(), Err("bad".to_owned()));
    assert_eq!(judged.result, Err("bad".to_owned()));
}
