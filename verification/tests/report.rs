//! Presenting violations: line shifts in messages, colours and the printed
//! line.
use lifetime::report::{CYAN, DIM, RESET, YELLOW};
use lifetime::{adjust_line_in_msg, adjustable, colorize, format_error_line, is_ident};

#[test]
fn adjust_shifts_every_quoted_line() {
    let msg = "[l] `a` (declared at line 5) dropped at end of scope but `b` (declared at line 12) still has active borrow(s)";
    assert_eq!(
        adjust_line_in_msg(msg, 1),
        "[l] `a` (declared at line 4) dropped at end of scope but `b` (declared at line 11) still has active borrow(s)"
    );
}

#[test]
fn adjust_never_goes_below_zero() {
    assert_eq!(adjust_line_in_msg("x (declared at line 2) y", 5), "x (declared at line 0) y");
}

#[test]
fn adjust_unparsable_number_counts_as_one() {
    assert_eq!(adjust_line_in_msg("(declared at line x)", 0), "(declared at line 1)");
    assert_eq!(adjust_line_in_msg("(declared at line )", 1), "(declared at line 0)");
}

#[test]
fn adjust_reads_plus_sign_and_rewrites_canonically() {
    assert_eq!(adjust_line_in_msg("(declared at line +07)", 1), "(declared at line 6)");
    assert_eq!(adjust_line_in_msg("(declared at line 007)", 0), "(declared at line 7)");
}

#[test]
fn adjust_without_quotes_is_identity() {
    assert_eq!(adjust_line_in_msg("[l] nothing to shift", 3), "[l] nothing to shift");
}

#[test]
fn adjust_by_zero_keeps_canonical_message() {
    let msg = "[l] `v` passed to function while `r` (declared at line 42) has active borrow(s)";
    assert_eq!(adjust_line_in_msg(msg, 0), msg);
}

#[test]
fn adjust_overflowing_number_counts_as_one() {
    assert_eq!(
        adjust_line_in_msg("(declared at line 99999999999999999999999)", 0),
        "(declared at line 1)"
    );
}

#[test]
fn adjustable_messages() {
    assert!(adjustable("no quotes"));
    assert!(adjustable("(declared at line 3)"));
    assert!(!adjustable("(declared at line 3"));
    assert!(adjustable("(declared at line 3 and more)"));
}

#[test]
fn colorize_marks_labels_names_and_lines() {
    let msg = "[l] `a` (declared at line 3) x";
    let expected = format!(
        "{YELLOW}[l]{RESET} `{CYAN}a{RESET}` {DIM}(declared at line 3){RESET} x"
    );
    assert_eq!(colorize(msg), expected);
}

#[test]
fn colorize_leaves_unclosed_marks() {
    assert_eq!(colorize("[open `tick"), "[open `tick");
    assert_eq!(colorize("plain"), "plain");
}

#[test]
fn error_line_format() {
    let expected = format!("{CYAN}src/a.rs:7:{RESET} {YELLOW}[l]{RESET} boom");
    assert_eq!(format_error_line("src/a.rs", 7, "[l] boom"), expected);
}

#[test]
fn identifiers() {
    assert!(is_ident("abc"));
    assert!(is_ident("_x1"));
    assert!(is_ident("A_9"));
    assert!(!is_ident(""));
    assert!(!is_ident("1abc"));
    assert!(!is_ident("a-b"));
    assert!(!is_ident("caf\u{e9}"));
}

fn strip_codes(s: &str) -> String {
    let mut out = String::new();
    let mut in_code = false;
    for c in s.chars() {
        if c == '\x1b' {
            in_code = true;
        } else if in_code {
            if c == 'm' {
                in_code = false;
            }
        } else {
            out.push(c);
        }
    }
    out
}

#[test]
fn colorize_only_adds_codes() {
    let msg = "[l] `a` (declared at line 5) dropped at end of scope but `b` (declared at line 12) still has active borrow(s)";
    let colored = colorize(msg);
    assert_ne!(colored, msg);
    assert_eq!(strip_codes(&colored), msg);
    assert_eq!(strip_codes(&colorize("[unclosed `tick (declared at line 3")), "[unclosed `tick (declared at line 3");
}

#[test]
fn adjust_twice_is_adjust_by_the_sum() {
    let msg = "[l] `a` (declared at line 9) and `b` (declared at line +04) and (declared at line x)";
    let twice = adjust_line_in_msg(&adjust_line_in_msg(msg, 2), 3);
    assert_eq!(twice, adjust_line_in_msg(msg, 5));
    assert_eq!(
        twice,
        "[l] `a` (declared at line 4) and `b` (declared at line 0) and (declared at line 0)"
    );
}
