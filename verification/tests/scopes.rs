//! Owners and borrows only live in open scopes.
use lifetime::scanner::Scanner;

fn chars(s: &str) -> Vec<char> {
    s.chars().collect()
}

fn bounded(sc: &Scanner) -> bool {
    sc.owners.iter().all(|o| o.depth <= sc.depth) && sc.borrows.iter().all(|b| b.depth <= sc.depth)
}

#[test]
fn statements_and_braces_keep_bindings_in_open_scopes() {
    let mut sc = Scanner::new();
    let lines = [
        "let a = lt!(vec![1], \"x\");",
        "{",
        "    let b = lt!(vec![2], \"y\");",
        "    let p = lt!(&b, \"y\");",
        "    {",
        "        q = lt!(&a, \"x\");",
        "    }",
        "}",
        "drop(a);",
    ];
    let mut before = 0;
    for (i, l) in lines.iter().enumerate() {
        sc.scan_line(i + 1, &chars(l));
        assert!(bounded(&sc), "line {}", i + 1);
        assert!(sc.errors.len() >= before);
        before = sc.errors.len();
    }
    assert_eq!(sc.depth, 0);
    assert_eq!(sc.owners.len(), 1);
    assert!(sc.borrows.is_empty());
}
