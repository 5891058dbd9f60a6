//! The fixture suite checked the way the first-generation runner checks it:
//! `invalid_*` fixtures must report violations, the others none.
use lifetime::fixtures::evaluate_legacy_fixture;

#[test]
fn legacy_fixture_invalid_async_escape() {
    let body = r#"let p;
{
    let val = lt!(vec![1, 2, 3], "l");
    p = lt!(val.as_ptr(), "l");
    async { unsafe { assert!(*p == 1); } };
}
"#;
    let (errors, ok) = evaluate_legacy_fixture("invalid_async_escape.rs", body);
    assert!(ok, "{:?}", errors);
}

#[test]
fn legacy_fixture_invalid_conditional_drop() {
    let body = r#"let val = lt!(vec![1, 2, 3], "l");
let p = lt!(val.as_ptr(), "l");
if true {
    drop(val);
}
unsafe { assert!(*p == 1); }
"#;
    let (errors, ok) = evaluate_legacy_fixture("invalid_conditional_drop.rs", body);
    assert!(ok, "{:?}", errors);
}

#[test]
fn legacy_fixture_invalid_deep_escape() {
    let body = r#"let p;
{
    let val = lt!(vec![1, 2, 3], "x");
    {
        p = lt!(val.as_ptr(), "x");
    }
}
unsafe { assert!(*p == 1); }
"#;
    let (errors, ok) = evaluate_legacy_fixture("invalid_deep_escape.rs", body);
    assert!(ok, "{:?}", errors);
}

#[test]
fn legacy_fixture_invalid_drop() {
    let body = r#"let val = lt!(vec![1, 2, 3], "lt1");
let ptr = lt!(val.as_ptr(), "lt1");
drop(val);
unsafe { println!("{}", *ptr); }
"#;
    let (errors, ok) = evaluate_legacy_fixture("invalid_drop.rs", body);
    assert!(ok, "{:?}", errors);
}

#[test]
fn legacy_fixture_invalid_escape() {
    let body = r#"let ptr;
{
    let val = lt!(vec![1, 2, 3], "lt1");
    ptr = lt!(val.as_ptr(), "lt1");
}
unsafe { println!("{}", *ptr); }
"#;
    let (errors, ok) = evaluate_legacy_fixture("invalid_escape.rs", body);
    assert!(ok, "{:?}", errors);
}

#[test]
fn legacy_fixture_invalid_fn_escape() {
    let body = r#"let p;
{
    fn inner(v: &Vec<i32>) -> *const i32 {
        let r = lt!(v.as_ptr(), "l");
        r
    }
    {
        let val = lt!(vec![1, 2, 3], "l");
        p = lt!(inner(&val), "l");
    }
}
unsafe { assert!(*p == 1); }
"#;
    let (errors, ok) = evaluate_legacy_fixture("invalid_fn_escape.rs", body);
    assert!(ok, "{:?}", errors);
}

#[test]
fn legacy_fixture_invalid_fn_move() {
    let body = r#"fn take_owned(v: Vec<i32>) {}
let val = lt!(vec![1, 2, 3], "l");
let p = lt!(val.as_ptr(), "l");
take_owned(val);
unsafe { assert!(*p == 1); }
"#;
    let (errors, ok) = evaluate_legacy_fixture("invalid_fn_move.rs", body);
    assert!(ok, "{:?}", errors);
}

#[test]
fn legacy_fixture_invalid_fn_move_multi() {
    let body = r#"fn consume(a: Vec<i32>, b: Vec<i32>) {}
let a = lt!(vec![1, 2, 3], "x");
let b = lt!(vec![4, 5, 6], "x");
let pa = lt!(a.as_ptr(), "x");
let pb = lt!(b.as_ptr(), "x");
consume(a, b);
unsafe { assert!(*pa == 1 && *pb == 4); }
"#;
    let (errors, ok) = evaluate_legacy_fixture("invalid_fn_move_multi.rs", body);
    assert!(ok, "{:?}", errors);
}

#[test]
fn legacy_fixture_invalid_loop_escape() {
    let body = r#"let mut p = std::ptr::null();
loop {
    let val = lt!(vec![1, 2, 3], "l");
    if true {
        p = lt!(val.as_ptr(), "l");
    }
}
"#;
    let (errors, ok) = evaluate_legacy_fixture("invalid_loop_escape.rs", body);
    assert!(ok, "{:?}", errors);
}

#[test]
fn legacy_fixture_invalid_loop_reverse() {
    let body = r#"let mut p = std::ptr::null();
for _ in 0..3 {
    p = lt!(val.as_ptr(), "l");
    let val = lt!(vec![1, 2, 3], "l");
    unsafe { assert!(*p == 1); }
}
"#;
    let (errors, ok) = evaluate_legacy_fixture("invalid_loop_reverse.rs", body);
    assert!(ok, "{:?}", errors);
}

#[test]
fn legacy_fixture_invalid_mod_label_conflict() {
    let body = r#"let p;
{
    let val = lt!(vec![1, 2, 3], "shared");
    {
        p = lt!(val.as_ptr(), "shared");
    }
}
"#;
    let (errors, ok) = evaluate_legacy_fixture("invalid_mod_label_conflict.rs", body);
    assert!(ok, "{:?}", errors);
}

#[test]
fn legacy_fixture_invalid_mod_scope_escape() {
    let body = r#"let p;
{
    let val = lt!(vec![1, 2, 3], "outer");
    {
        let inner = lt!(vec![4, 5, 6], "inner");
        p = lt!(inner.as_ptr(), "inner");
    }
}
unsafe { assert!(*p == 4); }
"#;
    let (errors, ok) = evaluate_legacy_fixture("invalid_mod_scope_escape.rs", body);
    assert!(ok, "{:?}", errors);
}

#[test]
fn legacy_fixture_invalid_move() {
    let body = r#"let val = lt!(Box::new(42), "l");
let p = lt!(&*val, "l");
drop(val);
unsafe { assert!(*p == 42); }
"#;
    let (errors, ok) = evaluate_legacy_fixture("invalid_move.rs", body);
    assert!(ok, "{:?}", errors);
}

#[test]
fn legacy_fixture_invalid_nonnull_escape() {
    let body = r#"let mut val = lt!(vec![1, 2, 3], "x");
let p = lt!(NonNull::new(&mut val), "x");
drop(val);
unsafe { println!("{}", *p.as_ptr()); }"#;
    let (errors, ok) = evaluate_legacy_fixture("invalid_nonnull_escape.rs", body);
    assert!(ok, "{:?}", errors);
}

#[test]
fn legacy_fixture_invalid_ptr_box_escape() {
    let body = r#"let p;
{
    let boxed = lt!(Box::new(42), "l");
    p = lt!(&*boxed, "l");
}
unsafe { assert_eq!(*p, 42); }
"#;
    let (errors, ok) = evaluate_legacy_fixture("invalid_ptr_box_escape.rs", body);
    assert!(ok, "{:?}", errors);
}

#[test]
fn legacy_fixture_invalid_ptr_into_raw_drop() {
    let body = r#"let val = lt!(Box::new(42), "l");
let p = lt!(Box::into_raw(val), "l");
drop(val);
unsafe { assert!(!p.is_null()); }
"#;
    let (errors, ok) = evaluate_legacy_fixture("invalid_ptr_into_raw_drop.rs", body);
    assert!(ok, "{:?}", errors);
}

#[test]
fn legacy_fixture_invalid_ptr_string_escape() {
    let body = r#"let p;
{
    let val = lt!(String::from("hello"), "l");
    p = lt!(val.as_bytes(), "l");
}
unsafe { assert_eq!(p[0], 104); }
"#;
    let (errors, ok) = evaluate_legacy_fixture("invalid_ptr_string_escape.rs", body);
    assert!(ok, "{:?}", errors);
}

#[test]
fn legacy_fixture_invalid_reassign_escape() {
    let body = r#"let val = lt!(vec![1, 2, 3], "l");
let ptr;
{
    let inner = lt!(vec![4, 5, 6], "l");
    ptr = lt!(inner.as_ptr(), "l");
}
unsafe { assert!(*ptr == 4); }
"#;
    let (errors, ok) = evaluate_legacy_fixture("invalid_reassign_escape.rs", body);
    assert!(ok, "{:?}", errors);
}

#[test]
fn legacy_fixture_invalid_ref_escape() {
    let body = r#"let r;
{
    let val = lt!(42, "lt1");
    r = lt!(&val, "lt1");
}
unsafe { println!("{}", *r); }
"#;
    let (errors, ok) = evaluate_legacy_fixture("invalid_ref_escape.rs", body);
    assert!(ok, "{:?}", errors);
}

#[test]
fn legacy_fixture_invalid_reverse() {
    let body = r#"let ptr = lt!(val.as_ptr(), "lt1");
let val = lt!(vec![1, 2, 3], "lt1");
unsafe { println!("{}", *ptr); }
"#;
    let (errors, ok) = evaluate_legacy_fixture("invalid_reverse.rs", body);
    assert!(ok, "{:?}", errors);
}

#[test]
fn legacy_fixture_invalid_thread_spawn() {
    let body = r#"let p;
{
    let val = lt!(vec![1, 2, 3], "l");
    p = lt!(val.as_ptr(), "l");
    std::thread::spawn(|| unsafe { assert!(*p == 1); });
}
"#;
    let (errors, ok) = evaluate_legacy_fixture("invalid_thread_spawn.rs", body);
    assert!(ok, "{:?}", errors);
}

#[test]
fn legacy_fixture_valid_async_block() {
    let body = r#"let val = lt!(vec![1, 2, 3], "l");
async {
    let p = lt!(val.as_ptr(), "l");
    unsafe { assert!(*p == 1); }
};
"#;
    let (errors, ok) = evaluate_legacy_fixture("valid_async_block.rs", body);
    assert!(ok, "{:?}", errors);
}

#[test]
fn legacy_fixture_valid_complex_expr() {
    let body = r#"fn id(x: i32) -> i32 { x }
fn wrap(v: &Vec<i32>) -> (&Vec<i32>, *const i32) { (v, v.as_ptr()) }
let val = lt!(vec![1, 2, 3], "a");
let p = lt!(val.as_ptr(), "a");
let n = lt!(id(val.len()), "b");
unsafe { assert!(*p == 1 && n == 3); }
"#;
    let (errors, ok) = evaluate_legacy_fixture("valid_complex_expr.rs", body);
    assert!(ok, "{:?}", errors);
}

#[test]
fn legacy_fixture_valid_deep_nested() {
    let body = r#"let val3 = lt!(vec![1, 2, 3], "x");
{
    let val2 = lt!(vec![4, 5, 6], "x");
    {
        let val1 = lt!(vec![7, 8, 9], "x");
        let p1 = lt!(val1.as_ptr(), "x");
        let p2 = lt!(val2.as_ptr(), "x");
        let p3 = lt!(val3.as_ptr(), "x");
        unsafe { assert!(*p1 == 7 && *p2 == 4 && *p3 == 1); }
    }
    let p2 = lt!(val2.as_ptr(), "x");
    let p3 = lt!(val3.as_ptr(), "x");
    unsafe { assert!(*p2 == 4 && *p3 == 1); }
}
let p3 = lt!(val3.as_ptr(), "x");
unsafe { assert!(*p3 == 1); }
"#;
    let (errors, ok) = evaluate_legacy_fixture("valid_deep_nested.rs", body);
    assert!(ok, "{:?}", errors);
}

#[test]
fn legacy_fixture_valid_fn_borrow_arg() {
    let body = r#"fn len(v: &Vec<i32>) -> usize { v.len() }
let val = lt!(vec![1, 2, 3], "l");
let p = lt!(val.as_ptr(), "l");
let n = len(&val);
unsafe { assert!(*p == 1 && n == 3); }
"#;
    let (errors, ok) = evaluate_legacy_fixture("valid_fn_borrow_arg.rs", body);
    assert!(ok, "{:?}", errors);
}

#[test]
fn legacy_fixture_valid_fn_lt_return() {
    let body = r#"fn get_ptr(v: &Vec<i32>) -> *const i32 { v.as_ptr() }
let val = lt!(vec![1, 2, 3], "l");
{
    let p = lt!(get_ptr(&val), "l");
    unsafe { assert!(*p == 1); }
}
"#;
    let (errors, ok) = evaluate_legacy_fixture("valid_fn_lt_return.rs", body);
    assert!(ok, "{:?}", errors);
}

#[test]
fn legacy_fixture_valid_fn_ref() {
    let body = r#"fn peek(v: &Vec<i32>) -> i32 { v[0] }
let val = lt!(vec![1, 2, 3], "l");
let p = lt!(val.as_ptr(), "l");
let x = peek(&val);
unsafe { assert!(*p == 1 && x == 1); }
"#;
    let (errors, ok) = evaluate_legacy_fixture("valid_fn_ref.rs", body);
    assert!(ok, "{:?}", errors);
}

#[test]
fn legacy_fixture_valid_fn_ret() {
    let body = r#"fn wrap(val: &Vec<i32>) -> *const i32 {
    let p = lt!(val.as_ptr(), "l");
    p
}
let v = lt!(vec![1, 2, 3], "l");
let p = wrap(&v);
unsafe { assert!(*p == 1); }
"#;
    let (errors, ok) = evaluate_legacy_fixture("valid_fn_ret.rs", body);
    assert!(ok, "{:?}", errors);
}

#[test]
fn legacy_fixture_valid_fn_safe_use() {
    let body = r#"let val = lt!(vec![1, 2, 3], "l");
let p = lt!(val.as_ptr(), "l");
unsafe { assert!(*p == 1); }
println!("val: {:?}", &val);
"#;
    let (errors, ok) = evaluate_legacy_fixture("valid_fn_safe_use.rs", body);
    assert!(ok, "{:?}", errors);
}

#[test]
fn legacy_fixture_valid_loop_basic() {
    let body = r#"let val = lt!(vec![1, 2, 3], "l");
for _ in 0..3 {
    let p = lt!(val.as_ptr(), "l");
    unsafe { assert!(*p == 1); }
}
let p = lt!(val.as_ptr(), "l");
unsafe { assert!(*p == 1); }
"#;
    let (errors, ok) = evaluate_legacy_fixture("valid_loop_basic.rs", body);
    assert!(ok, "{:?}", errors);
}

#[test]
fn legacy_fixture_valid_mod_cross_boundary() {
    let body = r#"mod holder {
    let val = lt!(vec![1, 2, 3], "l");
}
let p = lt!(holder::val.as_ptr(), "l");
unsafe { assert!(*p == 1); }
// note: analysis cleans up mod scope before outer borrow is created
"#;
    let (errors, ok) = evaluate_legacy_fixture("valid_mod_cross_boundary.rs", body);
    assert!(ok, "{:?}", errors);
}

#[test]
fn legacy_fixture_valid_mod_fn_cross() {
    let body = r#"fn bad_wrap(v: &Vec<i32>) -> *const i32 {
    let r = lt!(v.as_ptr(), "l");
    r
}
let p;
{
    let val = lt!(vec![1, 2, 3], "l");
    p = bad_wrap(&val);
}
unsafe { println!("{}", *p); }
"#;
    let (errors, ok) = evaluate_legacy_fixture("valid_mod_fn_cross.rs", body);
    assert!(ok, "{:?}", errors);
}

#[test]
fn legacy_fixture_valid_mod_fn_wrap() {
    let body = r#"fn make_ptr(v: &Vec<i32>) -> *const i32 {
    let r = lt!(v.as_ptr(), "l");
    r
}
let val = lt!(vec![1, 2, 3], "l");
let p = make_ptr(&val);
unsafe { assert!(*p == 1); }
"#;
    let (errors, ok) = evaluate_legacy_fixture("valid_mod_fn_wrap.rs", body);
    assert!(ok, "{:?}", errors);
}

#[test]
fn legacy_fixture_valid_mod_independent() {
    let body = r#"{ let a = lt!(vec![1, 2, 3], "x"); let pa = lt!(a.as_ptr(), "x"); unsafe { assert!(*pa == 1); } }
{ let b = lt!(vec![4, 5, 6], "y"); let pb = lt!(b.as_ptr(), "y"); unsafe { assert!(*pb == 4); } }
"#;
    let (errors, ok) = evaluate_legacy_fixture("valid_mod_independent.rs", body);
    assert!(ok, "{:?}", errors);
}

#[test]
fn legacy_fixture_valid_mod_isolated() {
    let body = r#"{
    let a = lt!(vec![1, 2, 3], "g1");
    let pa = lt!(a.as_ptr(), "g1");
    unsafe { assert!(*pa == 1); }
}
{
    let b = lt!(vec![4, 5, 6], "g2");
    let pb = lt!(b.as_ptr(), "g2");
    unsafe { assert!(*pb == 4); }
}
"#;
    let (errors, ok) = evaluate_legacy_fixture("valid_mod_isolated.rs", body);
    assert!(ok, "{:?}", errors);
}

#[test]
fn legacy_fixture_valid_mod_multi_fn() {
    let body = r#"mod lib {
    pub fn make(v: &Vec<i32>) -> *const i32 {
        let p = lt!(v.as_ptr(), "l");
        p
    }
    pub fn take(v: Vec<i32>) -> *const i32 {
        let p = lt!(v.as_ptr(), "l");
        p
    }
}
let val = lt!(vec![1, 2, 3], "l");
let p = lib::make(&val);
{
    let other = lt!(vec![4, 5, 6], "l");
    let q = lib::take(other);
}
unsafe { assert!(*p == 1); }
"#;
    let (errors, ok) = evaluate_legacy_fixture("valid_mod_multi_fn.rs", body);
    assert!(ok, "{:?}", errors);
}

#[test]
fn legacy_fixture_valid_multi_borrow() {
    let body = r#"let val = lt!(vec![1, 2, 3], "l");
let p = lt!(val.as_ptr(), "l");
let q = lt!(val.as_ptr(), "l");
let r = lt!(val.as_ptr(), "l");
unsafe { assert!(*p == 1 && *q == 1 && *r == 1); }
"#;
    let (errors, ok) = evaluate_legacy_fixture("valid_multi_borrow.rs", body);
    assert!(ok, "{:?}", errors);
}

#[test]
fn legacy_fixture_valid_multi_fn() {
    let body = r#"fn double(v: &i32) -> i32 { *v * 2 }
fn triple(v: &i32) -> i32 { *v * 3 }
fn neg(v: &i32) -> i32 { -*v }
let val = lt!(42, "l");
let a = lt!(double(&val), "l");
let b = lt!(triple(&val), "l");
let c = lt!(neg(&val), "l");
"#;
    let (errors, ok) = evaluate_legacy_fixture("valid_multi_fn.rs", body);
    assert!(ok, "{:?}", errors);
}

#[test]
fn legacy_fixture_valid_multi_label() {
    let body = r#"let a = lt!(String::from("hello"), "lt_a");
let b = lt!(vec![1, 2, 3], "lt_b");
let pa = lt!(a.as_ptr(), "lt_a");
let pb = lt!(b.as_ptr(), "lt_b");
unsafe { println!("{} {}", *pa, *pb); }
"#;
    let (errors, ok) = evaluate_legacy_fixture("valid_multi_label.rs", body);
    assert!(ok, "{:?}", errors);
}

#[test]
fn legacy_fixture_valid_ptr_arc() {
    let body = r#"let arc = lt!(std::sync::Arc::new(42), "l");
let p = lt!(std::sync::Arc::as_ptr(&arc), "l");
unsafe { assert_eq!(*p, 42); }
"#;
    let (errors, ok) = evaluate_legacy_fixture("valid_ptr_arc.rs", body);
    assert!(ok, "{:?}", errors);
}

#[test]
fn legacy_fixture_valid_ptr_as_ref() {
    let body = r#"let opt = lt!(Some(Box::new(42)), "l");
let r = lt!(opt.as_ref(), "l");
unsafe { assert_eq!(**r.unwrap(), 42); }
"#;
    let (errors, ok) = evaluate_legacy_fixture("valid_ptr_as_ref.rs", body);
    assert!(ok, "{:?}", errors);
}

#[test]
fn legacy_fixture_valid_ptr_box() {
    let body = r#"let boxed = lt!(Box::new(42), "l");
let p = lt!(&*boxed, "l");
unsafe { assert_eq!(*p, 42); }
"#;
    let (errors, ok) = evaluate_legacy_fixture("valid_ptr_box.rs", body);
    assert!(ok, "{:?}", errors);
}

#[test]
fn legacy_fixture_valid_ptr_nonnull() {
    let body = r#"let mut val = lt!(vec![1, 2, 3], "x");
let p = lt!(NonNull::new(&mut val), "x");
unsafe { println!("{}", *p.as_ptr()); }"#;
    let (errors, ok) = evaluate_legacy_fixture("valid_ptr_nonnull.rs", body);
    assert!(ok, "{:?}", errors);
}

#[test]
fn legacy_fixture_valid_ptr_rc() {
    let body = r#"let rc = lt!(std::rc::Rc::new(42), "l");
let p = lt!(std::rc::Rc::as_ptr(&rc), "l");
unsafe { assert_eq!(*p, 42); }
"#;
    let (errors, ok) = evaluate_legacy_fixture("valid_ptr_rc.rs", body);
    assert!(ok, "{:?}", errors);
}

#[test]
fn legacy_fixture_valid_ptr_ref() {
    let body = r#"let val = lt!(42, "l");
let r = lt!(&val, "l");
unsafe { assert_eq!(*r, 42); }
"#;
    let (errors, ok) = evaluate_legacy_fixture("valid_ptr_ref.rs", body);
    assert!(ok, "{:?}", errors);
}

#[test]
fn legacy_fixture_valid_ptr_slice() {
    let body = r#"let val = lt!(vec![1u8, 2, 3], "l");
let s = lt!(val.as_slice(), "l");
let b = lt!(val.as_bytes(), "l");
unsafe { assert!(s[0] == 1 && b[0] == 1); }
"#;
    let (errors, ok) = evaluate_legacy_fixture("valid_ptr_slice.rs", body);
    assert!(ok, "{:?}", errors);
}

#[test]
fn legacy_fixture_valid_ptr_string() {
    let body = r#"let val = lt!(String::from("hello"), "l");
let p = lt!(val.as_ptr(), "l");
let bytes = lt!(val.as_bytes(), "l");
unsafe { assert!(*p == 104 && bytes[0] == 104); }
"#;
    let (errors, ok) = evaluate_legacy_fixture("valid_ptr_string.rs", body);
    assert!(ok, "{:?}", errors);
}

#[test]
fn legacy_fixture_valid_reassign_borrow() {
    let body = r#"let val = lt!(vec![1, 2, 3], "l");
let other = lt!(vec![4, 5, 6], "l");
let ptr = lt!(val.as_ptr(), "l");
let ptr = lt!(other.as_ptr(), "l");
unsafe { assert!(*ptr == 4); }
"#;
    let (errors, ok) = evaluate_legacy_fixture("valid_reassign_borrow.rs", body);
    assert!(ok, "{:?}", errors);
}

#[test]
fn legacy_fixture_valid_ref() {
    let body = r#"let val = lt!(42, "lt1");
let r = lt!(&val, "lt1");
unsafe { println!("{}", *r); }
"#;
    let (errors, ok) = evaluate_legacy_fixture("valid_ref.rs", body);
    assert!(ok, "{:?}", errors);
}

#[test]
fn legacy_fixture_valid_thread_scope() {
    let body = r#"let val = lt!(vec![1, 2, 3], "l");
std::thread::scope(|s| {
    let p = lt!(val.as_ptr(), "l");
    s.spawn(|| unsafe { assert!(*p == 1); });
});
"#;
    let (errors, ok) = evaluate_legacy_fixture("valid_thread_scope.rs", body);
    assert!(ok, "{:?}", errors);
}
