use benchdb::bench_missing::{compute_missing, filter_pr_commits, parse_log, plan, BackfillPlan};
use benchdb::vcs::is_pr_merge_message;

#[test]
fn pr_message_shape() {
    assert!(is_pr_merge_message("Add feature (#123)"));
    assert!(is_pr_merge_message("(#1)"));
    assert!(!is_pr_merge_message("Add feature (#123) and more"));
    assert!(!is_pr_merge_message("Add feature (#12a)"));
    assert!(!is_pr_merge_message("Add feature (#)"));
    assert!(!is_pr_merge_message("Add feature #123"));
    assert!(!is_pr_merge_message("Add feature (123)"));
    assert!(!is_pr_merge_message(""));
}

#[test]
fn log_parses_into_hash_and_message() {
    let log = "abc Fix things (#7)\ndef plain commit\n\nghi Another (#8)\n";
    let entries = parse_log(log);
    assert_eq!(entries.len(), 3);
    assert_eq!(entries[0], ("abc".to_string(), "Fix things (#7)".to_string()));
    assert_eq!(entries[1], ("def".to_string(), "plain commit".to_string()));
    assert_eq!(entries[2], ("ghi".to_string(), "Another (#8)".to_string()));
    let prs = filter_pr_commits(&entries);
    assert_eq!(prs, vec!["abc".to_string(), "ghi".to_string()]);
}

#[test]
fn missing_set_is_the_difference_oldest_first() {
    // newest first: c3, c2, c1
    let commits = vec!["c3".to_string(), "c2".to_string(), "c1".to_string()];
    let existing = vec!["c2".to_string()];
    let missing = compute_missing(&commits, &existing, false);
    assert_eq!(missing, vec!["c1".to_string(), "c3".to_string()]);
}

#[test]
fn force_takes_the_whole_list() {
    let commits = vec!["c3".to_string(), "c2".to_string(), "c1".to_string()];
    let existing = vec!["c2".to_string(), "c3".to_string(), "c1".to_string()];
    let missing = compute_missing(&commits, &existing, true);
    assert_eq!(missing, vec!["c1".to_string(), "c2".to_string(), "c3".to_string()]);
    assert!(compute_missing(&commits, &existing, false).is_empty());
}

#[test]
fn plan_decides_the_pass() {
    let log = "c3 three (#3)\nc2 two (#2)\nc1 one (#1)\n";
    let covered = vec!["c2".to_string()];
    match plan(log, &covered, false, false) {
        BackfillPlan::Execute { commits, restore_to } => {
            assert_eq!(commits, vec!["c1".to_string(), "c3".to_string()]);
            assert_eq!(restore_to, "c3");
        }
        _ => panic!("two commits are uncovered"),
    }
    match plan(log, &covered, false, true) {
        BackfillPlan::DryRun(commits) => {
            assert_eq!(commits, vec!["c1".to_string(), "c3".to_string()])
        }
        _ => panic!("dry run must not execute"),
    }
    let all = vec!["c1".to_string(), "c2".to_string(), "c3".to_string()];
    match plan(log, &all, false, false) {
        BackfillPlan::NothingToDo => {}
        _ => panic!("everything is covered"),
    }
}
