//! The violations documented in the README, and the behaviours of the
//! scanner that they rest on, checked on concrete sources.
use lifetime::check_source;
use lifetime::legacy;

fn errs(pairs: &[(usize, &str)]) -> Vec<(usize, String)> {
    pairs.iter().map(|(l, m)| (*l, m.to_string())).collect()
}

#[test]
fn readme_explicit_drop() {
    let src = "fn main() {\n    let val = lt!(vec![1, 2, 3], \"my_data\");\n    let ptr = lt!(val.as_ptr(), \"my_data\");\n    drop(val);\n    unsafe { println!(\"{}\", *ptr); }\n}\n";
    assert_eq!(
        check_source(src),
        errs(&[(4, "[my_data] `drop(val)` called but `ptr` (declared at line 3) has active borrow(s)")])
    );
}

#[test]
fn scope_escape_through_assignment() {
    let src = "let val = lt!(vec![1, 2, 3], \"l\");\nlet ptr;\n{\n    let inner = lt!(vec![4, 5, 6], \"l\");\n    ptr = lt!(inner.as_ptr(), \"l\");\n}\nunsafe { assert!(*ptr == 4); }\n";
    assert_eq!(
        check_source(src),
        errs(&[(6, "[l] `inner` (declared at line 4) dropped at end of scope but `ptr` (declared at line 5) still has active borrow(s)")])
    );
}

#[test]
fn reverse_order_in_one_scope() {
    let src = "{\n    let p = lt!(&x, \"a\");\n    let x = lt!(String::new(), \"a\");\n}\n";
    assert_eq!(
        check_source(src),
        errs(&[(4, "[a] `x` (declared at line 3) dropped at end of scope but `p` (declared at line 2) still has active borrow(s)")])
    );
}

#[test]
fn owner_moved_into_function() {
    let src = "let v = lt!(vec![1], \"m\");\nlet r = lt!(&v, \"m\");\nconsume(v);\n";
    assert_eq!(
        check_source(src),
        errs(&[(3, "[m] `v` passed to function while `r` (declared at line 2) has active borrow(s)")])
    );
}

#[test]
fn owner_passed_to_safe_constructor() {
    let src = "let v = lt!(vec![1], \"m\");\nlet r = lt!(&v, \"m\");\nSome(v);\nif (v) {}\n";
    assert_eq!(check_source(src), Vec::new());
}

#[test]
fn borrow_in_own_scope_is_fine() {
    let src = "{\n    let v = lt!(vec![1], \"k\");\n    let r = lt!(&v, \"k\");\n}\n";
    assert_eq!(check_source(src), Vec::new());
}

#[test]
fn labels_pair_owners_with_borrows() {
    let src = "let v = lt!(vec![1], \"one\");\nlet r = lt!(&v, \"two\");\ndrop(v);\n";
    assert_eq!(check_source(src), Vec::new());
}

#[test]
fn unannotated_source_has_no_violations() {
    let src = "fn main() {\n    let v = vec![1];\n    let r = &v;\n    drop(v);\n    consume(v);\n}\n";
    assert_eq!(check_source(src), Vec::new());
}

#[test]
fn annotation_over_several_lines() {
    let src = "let val = lt!(\n    vec![1, 2, 3],\n    \"d\"\n);\nlet p = lt!(val.as_ptr(), \"d\");\ndrop(val);\n";
    assert_eq!(
        check_source(src),
        errs(&[(6, "[d] `drop(val)` called but `p` (declared at line 5) has active borrow(s)")])
    );
}

#[test]
fn redeclaration_shadows_a_borrow() {
    let src = "let v = lt!(vec![1], \"s\");\nlet r = lt!(&v, \"s\");\nlet r = 5;\ndrop(v);\n";
    assert_eq!(check_source(src), Vec::new());
}

#[test]
fn braces_in_strings_and_comments() {
    let src = "{\n    let v = lt!(vec![1], \"b\");\n    let s = \"}\";\n    let r = lt!(&v, \"b\"); // }\n}\n";
    assert_eq!(check_source(src), Vec::new());
}

#[test]
fn statements_split_at_semicolons() {
    let src = "let v = lt!(vec![1], \"q\"); let r = lt!(&v, \"q\");\nconsume(v); drop(v);\n";
    assert_eq!(
        check_source(src),
        errs(&[
            (2, "[q] `v` passed to function while `r` (declared at line 1) has active borrow(s)"),
            (2, "[q] `drop(v)` called but `r` (declared at line 1) has active borrow(s)"),
        ])
    );
}

#[test]
fn drop_on_the_borrow_line_is_not_reported() {
    let src = "let v = lt!(vec![1], \"q\"); let r = lt!(&v, \"q\"); drop(v);\n";
    assert_eq!(check_source(src), Vec::new());
}

#[test]
fn drop_before_borrow_is_fine() {
    let src = "let v = lt!(vec![1], \"e\");\ndrop(v);\nlet r = lt!(&v, \"e\");\n";
    assert_eq!(check_source(src), Vec::new());
}

#[test]
fn test_module_marker_line_is_skipped() {
    let src = "#[cfg(test)]\nlet v = lt!(vec![1], \"t\");\nlet r = lt!(&v, \"t\");\ndrop(v);\n";
    assert_eq!(
        check_source(src),
        errs(&[(4, "[t] `drop(v)` called but `r` (declared at line 3) has active borrow(s)")])
    );
}

#[test]
fn empty_source() {
    assert_eq!(check_source(""), Vec::new());
    assert_eq!(legacy::check_source(""), Vec::new());
}

#[test]
fn legacy_readme_explicit_drop() {
    let src = "fn main() {\n    let val = lt!(vec![1, 2, 3], \"my_data\");\n    let ptr = lt!(val.as_ptr(), \"my_data\");\n    drop(val);\n    unsafe { println!(\"{}\", *ptr); }\n}\n";
    assert_eq!(
        legacy::check_source(src),
        errs(&[(4, "[my_data] `drop(val)` called but `ptr` (declared at line 3) has active borrow(s)")])
    );
}

#[test]
fn legacy_stops_at_test_module() {
    let src = "let v = lt!(vec![1], \"t\");\nlet r = lt!(&v, \"t\");\n#[cfg(test)]\ndrop(v);\n";
    assert_eq!(legacy::check_source(src), Vec::new());
    assert_eq!(
        check_source(src),
        errs(&[(4, "[t] `drop(v)` called but `r` (declared at line 2) has active borrow(s)")])
    );
}

#[test]
fn legacy_skips_comment_lines() {
    let src = "let v = lt!(vec![1], \"c\");\nlet r = lt!(&v, \"c\");\n// drop(v);\ndrop(v);\n";
    assert_eq!(
        legacy::check_source(src),
        errs(&[(4, "[c] `drop(v)` called but `r` (declared at line 2) has active borrow(s)")])
    );
}

#[test]
fn legacy_has_no_shadowing() {
    let src = "let v = lt!(vec![1], \"s\");\nlet r = lt!(&v, \"s\");\nlet r = 5;\ndrop(v);\n";
    assert_eq!(
        legacy::check_source(src),
        errs(&[(4, "[s] `drop(v)` called but `r` (declared at line 2) has active borrow(s)")])
    );
}

#[test]
fn line_numbers_beyond_nine() {
    let mut src = String::new();
    for _ in 0..10 {
        src.push_str("\n");
    }
    src.push_str("let v = lt!(vec![1], \"n\");\nlet r = lt!(&v, \"n\");\ndrop(v);\n");
    assert_eq!(
        check_source(&src),
        errs(&[(13, "[n] `drop(v)` called but `r` (declared at line 12) has active borrow(s)")])
    );
}

#[test]
fn scannable_texts() {
    assert!(lifetime::scannable("let v = lt!(vec![1], \"x\");\n"));
    assert!(lifetime::scannable("let s = \"caf\u{e9}\";\n"));
    assert!(lifetime::scannable("\u{e9}\n"));
    assert!(!lifetime::scannable("// caf\u{e9}\n"));
    assert!(!lifetime::scannable("\u{e9}abcdef\n"));
}

#[test]
fn violations_come_in_line_order() {
    let src = "let a = lt!(vec![1], \"x\");\nlet p = lt!(&a, \"x\");\nlet b = lt!(vec![2], \"y\");\nlet q = lt!(&b, \"y\");\ndrop(b);\ndrop(a);\n";
    let found = check_source(src);
    assert_eq!(
        found,
        errs(&[
            (5, "[y] `drop(b)` called but `q` (declared at line 4) has active borrow(s)"),
            (6, "[x] `drop(a)` called but `p` (declared at line 2) has active borrow(s)"),
        ])
    );
    let legacy_found = legacy::check_source(src);
    assert_eq!(legacy_found, found);
}

#[test]
fn joined_lines_keep_text_and_numbers() {
    let src = "let v = lt!(\n    vec![1],\n    \"a\"\n);\nlet x = 1;\n";
    let chars: Vec<char> = src.chars().collect();
    let joined = lifetime::joining::join_lt_lines(&chars).expect("text can be taken apart");
    let as_strings: Vec<(usize, String)> =
        joined.into_iter().map(|(n, t)| (n, t.into_iter().collect())).collect();
    assert_eq!(
        as_strings,
        vec![
            (1, "let v = lt!(\n    vec![1],\n    \"a\"\n);".to_string()),
            (5, "let x = 1;".to_string()),
        ]
    );
    let rejoined: Vec<&str> = as_strings.iter().map(|(_, t)| t.as_str()).collect();
    let physical: Vec<&str> = src.lines().collect();
    assert_eq!(rejoined.join("\n"), physical.join("\n"));
}

#[test]
fn legacy_mut_owner_and_nonnull_borrow() {
    let src = "let mut val = lt!(vec![1, 2, 3], \"x\");\nlet p = lt!(NonNull::new(&mut val), \"x\");\ndrop(val);\n";
    assert_eq!(
        legacy::check_source(src),
        errs(&[(3, "[x] `drop(val)` called but `p` (declared at line 2) has active borrow(s)")])
    );
    let unchecked = "let v = lt!(vec![1], \"u\");\nlet q = lt!(std::ptr::NonNull::new_unchecked(ptr), \"u\");\ndrop(v);\n";
    assert_eq!(
        legacy::check_source(unchecked),
        errs(&[(3, "[u] `drop(v)` called but `q` (declared at line 2) has active borrow(s)")])
    );
}

#[test]
fn blank_lines_in_front_shift_every_violation() {
    let src = "let v = lt!(vec![1], \"s\");\nlet r = lt!(&v, \"s\");\n{\n    let w = lt!(vec![2], \"t\");\n    let q = lt!(&w, \"t\");\n    consume(w);\n}\ndrop(v);\n";
    let base = check_source(src);
    assert_eq!(base.len(), 2);
    for k in [1usize, 3, 12] {
        let shifted = check_source(&format!("{}{}", "\n".repeat(k), src));
        assert_eq!(shifted.len(), base.len());
        for (a, b) in base.iter().zip(shifted.iter()) {
            assert_eq!(b.0, a.0 + k);
            assert_eq!(lifetime::adjust_line_in_msg(&b.1, k), a.1);
        }
    }
}

#[test]
fn legacy_ignores_everything_after_test_module() {
    let a = "let v = lt!(vec![1], \"c\");\nlet r = lt!(&v, \"c\");\ndrop(v);\n";
    let b = "let w = lt!(vec![2], \"d\");\nlet q = lt!(&w, \"d\");\ndrop(w);\n";
    let whole = format!("{}#[cfg(test)]\n{}", a, b);
    assert_eq!(legacy::check_source(&whole), legacy::check_source(a));
    assert_eq!(legacy::check_source(a).len(), 1);
    assert_eq!(legacy::check_source(&format!("#[cfg(test)]\n{}", b)), Vec::new());
}
