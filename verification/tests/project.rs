//! Walking a crate: each module file once, inline modules checked on
//! their own, violations labelled with the file they are reported for.
use lifetime::check_source;
use lifetime::cli::{declared_modules, find_inline_modules};
use lifetime::project::ProjectWalk;

fn s(x: &str) -> String {
    x.to_string()
}

#[test]
fn walk_starts_at_the_entry_file() {
    let mut walk = ProjectWalk::new(s("/p/src/main.rs"));
    assert_eq!(walk.next_path(), Some(s("/p/src/main.rs")));
    assert_eq!(walk.next_path(), None);
    assert_eq!(walk.into_found(), Vec::new());
}

#[test]
fn walk_visits_a_module_file_once() {
    let mut walk = ProjectWalk::new(s("/p/src/lib.rs"));
    let entry = walk.next_path().unwrap();
    let src = "mod a;\nmod b;\n";
    walk = walk
        .visit(&entry, "src/lib.rs", src, vec![s("/p/src/a.rs"), s("/p/src/b.rs")])
        .unwrap();
    assert_eq!(walk.next_path(), Some(s("/p/src/b.rs")));
    walk = walk.visit("/p/src/b.rs", "src/b.rs", "mod a;\n", vec![s("/p/src/a.rs")]).unwrap();
    assert_eq!(walk.next_path(), Some(s("/p/src/a.rs")));
    walk = walk.visit("/p/src/a.rs", "src/a.rs", "mod b;\n", vec![s("/p/src/b.rs")]).unwrap();
    assert_eq!(walk.next_path(), None);
    assert_eq!(walk.into_found(), Vec::new());
}

#[test]
fn walk_labels_file_and_inline_violations() {
    let src = "mod inner {\n    let v = lt!(vec![1], \"m\");\n    let r = lt!(&v, \"m\");\n    drop(v);\n}\n";
    let mut walk = ProjectWalk::new(s("/p/src/lib.rs"));
    let entry = walk.next_path().unwrap();
    walk = walk.visit(&entry, "src/lib.rs", src, Vec::new()).unwrap();
    assert_eq!(walk.next_path(), None);
    assert_eq!(
        walk.into_found(),
        vec![
            (
                s("/p/src/lib.rs:inner"),
                3,
                s("[m] `drop(v)` called but `r` (declared at line 2) has active borrow(s)")
            ),
            (
                s("src/lib.rs"),
                4,
                s("[m] `drop(v)` called but `r` (declared at line 3) has active borrow(s)")
            ),
        ]
    );
}

#[test]
fn walk_inline_results_agree_with_check_source() {
    let body = "    let v = lt!(vec![1], \"m\");\n    let r = lt!(&v, \"m\");\n    consume(v);\n";
    let src = format!("fn f() {{}}\nmod k {{\n{}}}\n", body);
    let mut walk = ProjectWalk::new(s("x.rs"));
    let entry = walk.next_path().unwrap();
    walk = walk.visit(&entry, "x.rs", &src, Vec::new()).unwrap();
    let mut expected: Vec<(String, usize, String)> =
        check_source(body).into_iter().map(|(l, m)| (s("x.rs:k"), l, m)).collect();
    expected.extend(check_source(&src).into_iter().map(|(l, m)| (s("x.rs"), l, m)));
    assert!(!expected.is_empty());
    assert_eq!(walk.into_found(), expected);
}

#[test]
fn walk_checks_a_repeated_inline_module_once() {
    let src = "mod d {\n    let v = lt!(vec![1], \"q\");\n    let r = lt!(&v, \"q\");\n    drop(v);\n}\nmod d {\n    let w = lt!(vec![2], \"q\");\n}\n";
    let mut walk = ProjectWalk::new(s("m.rs"));
    let entry = walk.next_path().unwrap();
    walk = walk.visit(&entry, "m.rs", src, Vec::new()).unwrap();
    let found = walk.into_found();
    let inline: Vec<_> = found.iter().filter(|e| e.0 == "m.rs:d").collect();
    assert_eq!(inline.len(), 1);
    assert_eq!(inline[0].1, 3);
}

#[test]
fn walk_refuses_text_it_cannot_take_apart() {
    let mut walk = ProjectWalk::new(s("m.rs"));
    let entry = walk.next_path().unwrap();
    assert!(walk.visit(&entry, "m.rs", "// caf\u{e9}\n", Vec::new()).is_none());
}

#[test]
fn walk_skips_a_path_listed_twice() {
    let mut walk = ProjectWalk::new(s("r.rs"));
    let entry = walk.next_path().unwrap();
    walk = walk.visit(&entry, "r.rs", "", vec![s("t.rs"), s("t.rs")]).unwrap();
    assert_eq!(walk.next_path(), Some(s("t.rs")));
    assert_eq!(walk.next_path(), None);
}

#[test]
fn declared_modules_with_visibility() {
    assert_eq!(declared_modules("pub mod x;\n"), vec![s("x")]);
    assert_eq!(
        declared_modules("pub mod c;\nmod a;\npub(crate) mod d;\npub(in crate::p) mod e;\npub(super) mod f;\nmod g {\n}\nfn mod_h() {}\n"),
        vec![s("c"), s("a"), s("d"), s("e"), s("f")]
    );
}

#[test]
fn inline_modules_with_visibility() {
    let src = "pub mod x {\n    let y = 1;\n}\npub(crate) mod z {\n    let w = 2;\n}\n";
    assert_eq!(
        find_inline_modules(src),
        vec![(s("x"), s("    let y = 1;\n")), (s("z"), s("    let w = 2;\n"))]
    );
}

#[test]
fn walk_follows_pub_module_declarations() {
    let mut walk = ProjectWalk::new(s("/p/src/lib.rs"));
    let entry = walk.next_path().unwrap();
    let src = "pub mod c;\nmod a;\n";
    let names = lifetime::cli::declared_modules(src);
    assert_eq!(names, vec![s("c"), s("a")]);
    let files: Vec<String> = names
        .iter()
        .map(|n| lifetime::cli::module_file_candidates("/p/src", n).0)
        .collect();
    walk = walk.visit(&entry, "src/lib.rs", src, files).unwrap();
    assert_eq!(walk.next_path(), Some(s("/p/src/a.rs")));
    assert_eq!(walk.next_path(), Some(s("/p/src/c.rs")));
    assert_eq!(walk.next_path(), None);
}
