//! The runner's report and the printed lines of a file's violations.
use lifetime::fixtures::{evaluate_legacy_fixture, suite_report};
use lifetime::report::{CYAN, GREEN, RED, RESET, YELLOW};
use lifetime::{file_error_lines, format_error_line};

#[test]
fn report_of_a_passing_and_a_failing_fixture() {
    let results = vec![
        ("valid_a.rs".to_string(), Vec::new(), true),
        (
            "invalid_b.rs".to_string(),
            vec![(2, "[l] x".to_string())],
            false,
        ),
    ];
    let (lines, failed) = suite_report(&results, 4, true);
    assert!(failed);
    assert_eq!(
        lines,
        vec![
            format!("  {GREEN}PASS{RESET}  tests/valid_a.rs"),
            format!("  {RED}FAIL{RESET}  tests/invalid_b.rs"),
            format!("        {CYAN}invalid_b.rs:2:{RESET} {YELLOW}[l]{RESET} x"),
            format!("---\n{GREEN}1{RESET}/2 passed, {RED}1{RESET} failed  [4 cores]"),
        ]
    );
}

#[test]
fn plain_report_of_passing_fixtures() {
    let results = vec![(
        "invalid_c.rs".to_string(),
        vec![(7, "[m] y".to_string())],
        true,
    )];
    let (lines, failed) = suite_report(&results, 1, false);
    assert!(!failed);
    assert_eq!(
        lines,
        vec![
            "  PASS  tests/invalid_c.rs".to_string(),
            "        tests/invalid_c.rs:7: [m] y".to_string(),
            "---\n1/1 passed, 0 failed  [1 cores]".to_string(),
        ]
    );
}

#[test]
fn empty_report() {
    let (lines, failed) = suite_report(&Vec::new(), 2, false);
    assert!(!failed);
    assert_eq!(lines, vec!["---\n0/0 passed, 0 failed  [2 cores]".to_string()]);
}

#[test]
fn file_error_lines_one_per_violation() {
    let errors = vec![(3, "[a] b".to_string()), (10, "plain".to_string())];
    assert_eq!(
        file_error_lines("src/x.rs", &errors),
        vec![format_error_line("src/x.rs", 3, "[a] b"), format_error_line("src/x.rs", 10, "plain")]
    );
    assert_eq!(file_error_lines("src/x.rs", &errors)[1], format!("{CYAN}src/x.rs:10:{RESET} plain"));
}

#[test]
fn legacy_fixture_relabels_lines() {
    let body = "let v = lt!(vec![1], \"l\");\nlet p = lt!(&v, \"l\");\ndrop(v);\n";
    let (errors, ok) = evaluate_legacy_fixture("invalid_legacy.rs", body);
    assert!(ok);
    assert_eq!(
        errors,
        vec![(3, "[l] `drop(v)` called but `p` (declared at line 2) has active borrow(s)".to_string())]
    );
    let (_, ok) = evaluate_legacy_fixture("valid_legacy.rs", body);
    assert!(!ok);
}
