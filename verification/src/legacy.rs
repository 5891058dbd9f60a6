//! The first-generation analyzer behind the `lifetime` crate's own
//! `check_source`: physical lines only, no string-literal tracking, no
//! statement splitting at `;`, no shadowing, and a shorter vocabulary of
//! safe functions and pointer expressions. It stops at the first
//! `#[cfg(test)]` line and skips `//` comment lines.
use vstd::prelude::*;
use crate::text::{
    lemma_lines_concat, seq_find_char_from, strip_cr, chars_to_string, find_char, lemma_find_char_from, seq_find_char, seq_lines, seq_starts_with,
    seq_trim, seq_ends_with, slice_to_vec_chars, starts_with_str, ends_with_str, chars_eq_str,
    contains_char, str_chars, trim, lines, views, lemma_trim_start_suffix,
};
use crate::syntax::{
    extract_lt_expr_label, extract_paren_body, is_ident_chars, lemma_keyword_len, lemma_trim_len,
    parse_drop, parse_let, parse_lt_assign, spec_extract_lt_expr_label, spec_extract_paren_body,
    spec_is_ident, spec_parse_drop, spec_parse_let, spec_parse_lt_assign,
    spec_split_top_level_commas,
};
use crate::scanner::{
    args_moved_errors, initial_scan, spec_check_drop, spec_exit_scope, Borrow, DeclV, Owner,
    ScanV, Scanner, errors_view,
};
use crate::analyzer::{
    appends_at, brace, error_ok, errors_ok, lemma_appends_concat, lemma_appends_keep,
    lemma_appends_same, lemma_appends_trans, lemma_args_moved_errors_ok, lemma_drop_errors_ok,
    lemma_exit_errors_ok, lemma_lines_len, lemma_total_len_take, ordered_upto, strings_view,
    total_len,
};
use crate::scanner::{drop_errors, exit_errors};

verus! {

broadcast use vstd::string::group_string_axioms;

/// `let name = lt!(expr, "label")` or `let mut name = ..`, the name taken
/// as everything between `let ` (and `mut `) and the first `=`.
pub open spec fn spec_parse_lt_let(code: Seq<char>) -> Option<(Seq<char>, Seq<char>, Seq<char>)> {
    let c = seq_trim(code);
    if !seq_starts_with(c, "let "@) {
        None
    } else {
        let rest = c.skip(4);
        match seq_find_char(rest, '=') {
            None => None,
            Some(eq) => {
                let lhs = seq_trim(rest.take(eq));
                let var = if seq_starts_with(lhs, "mut "@) {
                    seq_trim(lhs.skip(4))
                } else {
                    lhs
                };
                if !spec_is_ident(var) {
                    None
                } else {
                    match spec_extract_lt_expr_label(seq_trim(rest.skip(eq + 1))) {
                        Some((e, l)) => Some((var, e, l)),
                        None => None,
                    }
                }
            },
        }
    }
}

pub fn parse_lt_let(code: &[char]) -> (r: Option<(Vec<char>, Vec<char>, Vec<char>)>)
    ensures
        r matches Some((v, e, l)) ==> spec_parse_lt_let(code@) == Some((v@, e@, l@)),
        r is None ==> spec_parse_lt_let(code@) is None,
{
    let c = trim(code);
    if !starts_with_str(c, "let ") {
        return None;
    }
    proof {
        lemma_keyword_len();
    }
    let rest = &c[4..c.len()];
    assert(rest@ =~= c@.skip(4));
    let eq = match find_char(rest, '=') {
        Some(k) => k,
        None => {
            return None;
        },
    };
    proof {
        lemma_find_char_from(rest@, '=', 0);
    }
    let lhs_raw = &rest[0..eq];
    assert(lhs_raw@ =~= rest@.take(eq as int));
    let lhs = trim(lhs_raw);
    let var = if starts_with_str(lhs, "mut ") {
        let tail = &lhs[4..lhs.len()];
        assert(tail@ =~= lhs@.skip(4));
        trim(tail)
    } else {
        lhs
    };
    if !is_ident_chars(var) {
        return None;
    }
    let rhs = &rest[eq + 1..rest.len()];
    assert(rhs@ =~= rest@.skip(eq + 1));
    let after = trim(rhs);
    match extract_lt_expr_label(after) {
        Some((e, l)) => Some((slice_to_vec_chars(var), e, l)),
        None => None,
    }
}

/// The printing, formatting, assertion and panic macros.
pub open spec fn spec_is_safe_fn(name: Seq<char>) -> bool {
    ||| name == "println"@ || name == "print"@ || name == "eprintln"@ || name == "eprint"@
    ||| name == "write"@ || name == "writeln"@
    ||| name == "format"@ || name == "format_args"@
    ||| name == "assert"@ || name == "assert_eq"@ || name == "assert_ne"@
    ||| name == "debug_assert"@ || name == "debug_assert_eq"@ || name == "debug_assert_ne"@
    ||| name == "panic"@ || name == "unreachable"@ || name == "unimplemented"@ || name == "todo"@
    ||| name == "dbg"@ || name == "stringify"@ || name == "concat"@
}

pub fn is_safe_fn(name: &[char]) -> (b: bool)
    ensures
        b == spec_is_safe_fn(name@),
{
    chars_eq_str(name, "println") || chars_eq_str(name, "print") || chars_eq_str(name, "eprintln")
        || chars_eq_str(name, "eprint") || chars_eq_str(name, "write") || chars_eq_str(
        name,
        "writeln",
    ) || chars_eq_str(name, "format") || chars_eq_str(name, "format_args") || chars_eq_str(
        name,
        "assert",
    ) || chars_eq_str(name, "assert_eq") || chars_eq_str(name, "assert_ne") || chars_eq_str(
        name,
        "debug_assert",
    ) || chars_eq_str(name, "debug_assert_eq") || chars_eq_str(name, "debug_assert_ne")
        || chars_eq_str(name, "panic") || chars_eq_str(name, "unreachable") || chars_eq_str(
        name,
        "unimplemented",
    ) || chars_eq_str(name, "todo") || chars_eq_str(name, "dbg") || chars_eq_str(
        name,
        "stringify",
    ) || chars_eq_str(name, "concat")
}

/// References, raw-pointer and reference accessors, and the pointer
/// constructors of `Box`, `Rc`, `Arc` and `NonNull`.
pub open spec fn spec_is_pointer_expr(e: Seq<char>) -> bool {
    let e = seq_trim(e);
    let starts = seq_starts_with(e, "&"@) || seq_starts_with(e, "&raw "@) || seq_starts_with(
        e,
        "&raw mut "@,
    ) || seq_starts_with(e, "Box::into_raw("@) || seq_starts_with(
        e,
        "std::boxed::Box::into_raw("@,
    ) || seq_starts_with(e, "Rc::as_ptr("@) || seq_starts_with(e, "std::rc::Rc::as_ptr("@)
        || seq_starts_with(e, "Arc::as_ptr("@) || seq_starts_with(e, "std::sync::Arc::as_ptr("@)
        || seq_starts_with(e, "NonNull::new("@) || seq_starts_with(e, "std::ptr::NonNull::new("@)
        || seq_starts_with(e, "NonNull::new_unchecked("@) || seq_starts_with(
        e,
        "std::ptr::NonNull::new_unchecked("@,
    );
    let ends = seq_ends_with(e, ".as_ptr()"@) || seq_ends_with(e, ".as_mut_ptr()"@)
        || seq_ends_with(e, ".as_ref()"@) || seq_ends_with(e, ".as_mut()"@) || seq_ends_with(
        e,
        ".as_bytes()"@,
    ) || seq_ends_with(e, ".as_bytes_mut()"@) || seq_ends_with(e, ".as_slice()"@)
        || seq_ends_with(e, ".as_mut_slice()"@) || seq_ends_with(e, ".as_str()"@)
        || seq_ends_with(e, ".as_mut_str()"@) || seq_ends_with(e, ".as_deref()"@)
        || seq_ends_with(e, ".as_deref_mut()"@) || seq_ends_with(e, ".borrow()"@)
        || seq_ends_with(e, ".borrow_mut()"@);
    starts || ends
}

/// The first-generation analysis takes an expression as a pointer exactly
/// when it has one of the forms the README lists as borrows.
pub proof fn law_legacy_listed_forms_are_pointers(e: Seq<char>)
    ensures
        spec_is_pointer_expr(e) == crate::syntax::listed_borrow_form(seq_trim(e)),
{
    crate::syntax::lemma_amp_prefixes(seq_trim(e));
}

/// An annotated `let` of a listed borrow form records a borrow, at the
/// current depth and on its line, and no owner.
pub proof fn law_legacy_pointer_let_is_borrow(st: ScanV, code: Seq<char>, line: nat)
    requires
        spec_parse_lt_let(code) matches Some((v, x, l)) && crate::syntax::listed_borrow_form(
            seq_trim(x),
        ),
    ensures
        ({
            let (v, x, l) = spec_parse_lt_let(code)->0;
            let after = spec_analyze_segment(st, code, line);
            &&& after.borrows == st.borrows.push(DeclV { var: v, label: l, line, depth: st.depth })
            &&& after.owners == st.owners
            &&& after.errors == st.errors
        }),
{
}

pub fn is_pointer_expr(e: &[char]) -> (b: bool)
    ensures
        b == spec_is_pointer_expr(e@),
{
    let e = trim(e);
    let starts = starts_with_str(e, "&") || starts_with_str(e, "&raw ") || starts_with_str(
        e,
        "&raw mut ",
    ) || starts_with_str(e, "Box::into_raw(") || starts_with_str(
        e,
        "std::boxed::Box::into_raw(",
    ) || starts_with_str(e, "Rc::as_ptr(") || starts_with_str(e, "std::rc::Rc::as_ptr(")
        || starts_with_str(e, "Arc::as_ptr(") || starts_with_str(e, "std::sync::Arc::as_ptr(")
        || starts_with_str(e, "NonNull::new(") || starts_with_str(e, "std::ptr::NonNull::new(")
        || starts_with_str(e, "NonNull::new_unchecked(") || starts_with_str(
        e,
        "std::ptr::NonNull::new_unchecked(",
    );
    let ends = ends_with_str(e, ".as_ptr()") || ends_with_str(e, ".as_mut_ptr()")
        || ends_with_str(e, ".as_ref()") || ends_with_str(e, ".as_mut()") || ends_with_str(
        e,
        ".as_bytes()",
    ) || ends_with_str(e, ".as_bytes_mut()") || ends_with_str(e, ".as_slice()")
        || ends_with_str(e, ".as_mut_slice()") || ends_with_str(e, ".as_str()")
        || ends_with_str(e, ".as_mut_str()") || ends_with_str(e, ".as_deref()")
        || ends_with_str(e, ".as_deref_mut()") || ends_with_str(e, ".borrow()")
        || ends_with_str(e, ".borrow_mut()");
    starts || ends
}

/// A call `f(args)` with `f` a plain name other than a safe function.
pub open spec fn owner_used_errors(st: ScanV, code: Seq<char>, line: nat) -> Seq<
    (nat, Seq<char>),
> {
    let c = seq_trim(code);
    match seq_find_char(c, '(') {
        None => seq![],
        Some(lp) => {
            let fn_name = seq_trim(c.take(lp));
            if fn_name.contains(' ') || fn_name.contains('=') || fn_name.len() == 0 {
                seq![]
            } else if spec_is_safe_fn(fn_name) {
                seq![]
            } else {
                match spec_extract_paren_body(c.skip(lp)) {
                    None => seq![],
                    Some(args) => args_moved_errors(
                        st.owners,
                        st.borrows,
                        spec_split_top_level_commas(args),
                        line,
                    ),
                }
            }
        },
    }
}

/// One statement: an annotated `let`, a plain `let`, an annotated
/// assignment, `drop(..)`, or a possible call.
pub open spec fn spec_analyze_segment(st: ScanV, code: Seq<char>, line: nat) -> ScanV {
    match spec_parse_lt_let(code) {
        Some((var, expr, label)) => {
            let st1 = ScanV { vars: st.vars.insert(var, st.depth), ..st };
            let decl = DeclV { var, label, line, depth: st.depth };
            if spec_is_pointer_expr(expr) {
                ScanV { borrows: st1.borrows.push(decl), ..st1 }
            } else {
                ScanV { owners: st1.owners.push(decl), ..st1 }
            }
        },
        None => match spec_parse_let(code) {
            Some(var) => ScanV { vars: st.vars.insert(var, st.depth), ..st },
            None => match spec_parse_lt_assign(code) {
                Some((var, _expr, label)) => {
                    let decl_d = if st.vars.contains_key(var) {
                        st.vars[var]
                    } else {
                        st.depth
                    };
                    let eff_d = if decl_d < st.depth {
                        decl_d
                    } else {
                        st.depth
                    };
                    ScanV { borrows: st.borrows.push(DeclV { var, label, line, depth: eff_d }), ..st }
                },
                None => match spec_parse_drop(code) {
                    Some(var) => spec_check_drop(st, var, line),
                    None => ScanV { errors: st.errors + owner_used_errors(st, code, line), ..st },
                },
            },
        },
    }
}

pub open spec fn flush_segment(st: ScanV, seg_raw: Seq<char>, line: nat) -> ScanV {
    let seg = seq_trim(seg_raw);
    if seg.len() == 0 {
        st
    } else {
        spec_analyze_segment(st, seg, line)
    }
}

/// Walking line `s` from `j`: every `{` and `}` opens or closes a scope.
pub open spec fn scan_walk(st: ScanV, s: Seq<char>, line: nat, j: int, seg_start: int) -> ScanV
    decreases s.len() - j,
{
    if j < 0 || j >= s.len() {
        flush_segment(st, s.subrange(seg_start, s.len() as int), line)
    } else {
        let ch = s[j];
        if ch == '}' || ch == '{' {
            let st1 = flush_segment(st, s.subrange(seg_start, j), line);
            scan_walk(brace(st1, ch, line), s, line, j + 1, j + 1)
        } else {
            scan_walk(st, s, line, j + 1, seg_start)
        }
    }
}

/// The lines from number `i` (counting from 0): blank lines and `//`
/// comment lines are skipped, and a `#[cfg(test)]` line ends the text.
pub open spec fn process_from(st: ScanV, ls: Seq<Seq<char>>, i: int) -> ScanV
    decreases ls.len() - i,
{
    if i < 0 || i >= ls.len() {
        st
    } else {
        let s = seq_trim(ls[i]);
        if s.len() == 0 || seq_starts_with(s, "//"@) {
            process_from(st, ls, i + 1)
        } else if seq_starts_with(s, "#[cfg(test)]"@) {
            st
        } else {
            process_from(scan_walk(st, s, (i + 1) as nat, 0, 0), ls, i + 1)
        }
    }
}

pub open spec fn spec_check_source(src: Seq<char>) -> Seq<(nat, Seq<char>)> {
    process_from(initial_scan(), seq_lines(src), 0).errors
}

proof fn lemma_segment_ok(st: ScanV, code: Seq<char>, line: nat)
    ensures
        appends_at(st.errors, spec_analyze_segment(st, code, line).errors, line),
{
    lemma_appends_same(st.errors, line);
    if spec_parse_lt_let(code) is None && spec_parse_let(code) is None && spec_parse_lt_assign(
        code,
    ) is None {
        match spec_parse_drop(code) {
            Some(var) => {
                lemma_drop_errors_ok(st.owners, var, st.borrows, line);
                lemma_appends_concat(st.errors, drop_errors(st.owners, var, st.borrows, line), line);
            },
            None => {
                assert(errors_ok(Seq::<(nat, Seq<char>)>::empty(), line, line));
                let c = seq_trim(code);
                match seq_find_char(c, '(') {
                    None => {},
                    Some(lp) => {
                        match spec_extract_paren_body(c.skip(lp)) {
                            None => {},
                            Some(args) => {
                                lemma_args_moved_errors_ok(
                                    st.owners,
                                    st.borrows,
                                    spec_split_top_level_commas(args),
                                    line,
                                );
                            },
                        }
                    },
                }
                assert(errors_ok(owner_used_errors(st, code, line), line, line));
                lemma_appends_concat(st.errors, owner_used_errors(st, code, line), line);
            },
        }
    }
}

proof fn lemma_walk_ok(st: ScanV, s: Seq<char>, line: nat, j: int, seg_start: int)
    ensures
        appends_at(st.errors, scan_walk(st, s, line, j, seg_start).errors, line),
    decreases s.len() - j,
{
    if j < 0 || j >= s.len() {
        lemma_segment_ok(st, seq_trim(s.subrange(seg_start, s.len() as int)), line);
        lemma_appends_same(st.errors, line);
    } else {
        let ch = s[j];
        let end = scan_walk(st, s, line, j, seg_start).errors;
        if ch == '}' || ch == '{' {
            let st1 = flush_segment(st, s.subrange(seg_start, j), line);
            lemma_segment_ok(st, seq_trim(s.subrange(seg_start, j)), line);
            lemma_appends_same(st.errors, line);
            let st2 = brace(st1, ch, line);
            if ch == '}' {
                lemma_exit_errors_ok(st1.owners, st1.borrows, st1.depth, line);
                lemma_appends_concat(
                    st1.errors,
                    exit_errors(st1.owners, st1.borrows, st1.depth, line),
                    line,
                );
            } else {
                lemma_appends_same(st1.errors, line);
            }
            lemma_appends_trans(st.errors, st1.errors, st2.errors, line);
            lemma_walk_ok(st2, s, line, j + 1, j + 1);
            lemma_appends_trans(st.errors, st2.errors, end, line);
        } else {
            lemma_walk_ok(st, s, line, j + 1, seg_start);
        }
    }
}

proof fn lemma_process_ok(st: ScanV, ls: Seq<Seq<char>>, i: int)
    requires
        0 <= i,
        errors_ok(st.errors, 1, ls.len()),
        ordered_upto(st.errors, i as nat),
    ensures
        errors_ok(process_from(st, ls, i).errors, 1, ls.len()),
        ordered_upto(process_from(st, ls, i).errors, if i <= ls.len() { ls.len() } else { i as nat }),
    decreases ls.len() - i,
{
    if i < ls.len() {
        let s = seq_trim(ls[i]);
        if s.len() == 0 || seq_starts_with(s, "//"@) {
            assert(ordered_upto(st.errors, (i + 1) as nat));
            lemma_process_ok(st, ls, i + 1);
        } else if !seq_starts_with(s, "#[cfg(test)]"@) {
            let line = (i + 1) as nat;
            let st1 = scan_walk(st, s, line, 0, 0);
            lemma_walk_ok(st, s, line, 0, 0);
            assert(ordered_upto(st.errors, line));
            lemma_appends_keep(st.errors, st1.errors, line, 1, ls.len());
            lemma_process_ok(st1, ls, i + 1);
        } else {
            assert(ordered_upto(st.errors, ls.len()));
        }
    }
}

/// Every violation that the first-generation `check_source` reports is on a
/// line of the text (counting from 1) and has a message of the form
/// `[label] ... )`, so that its quoted line numbers can be shifted by
/// `adjust_line_in_msg`; and the violations come in the order of their
/// lines.
pub proof fn law_legacy_reported_violations(src: Seq<char>)
    ensures
        errors_ok(spec_check_source(src), 1, seq_lines(src).len()),
        forall|i: int|
            0 <= i < spec_check_source(src).len() ==> crate::report::spec_adjustable(
                (#[trigger] spec_check_source(src)[i]).1,
            ),
        forall|i: int, j: int|
            0 <= i < j < spec_check_source(src).len() ==> spec_check_source(src)[i].0
                <= spec_check_source(src)[j].0,
{
    let ls = seq_lines(src);
    assert(errors_ok(initial_scan().errors, 1, ls.len()));
    assert(ordered_upto(initial_scan().errors, 0));
    lemma_process_ok(initial_scan(), ls, 0);
    let errs = spec_check_source(src);
    assert forall|i: int| 0 <= i < errs.len() implies crate::report::spec_adjustable(
        (#[trigger] errs[i]).1,
    ) by {
        assert(error_ok(errs[i], 1, ls.len()));
        crate::report::lemma_adjustable_ends_with_paren(errs[i].1, 0);
    }
}

proof fn lemma_process_stops(st: ScanV, l1: Seq<Seq<char>>, rest: Seq<Seq<char>>, i: int)
    requires
        0 <= i <= l1.len(),
        rest.len() > 0,
        seq_starts_with(seq_trim(rest[0]), "#[cfg(test)]"@),
    ensures
        process_from(st, l1 + rest, i) == process_from(st, l1, i),
    decreases l1.len() - i,
{
    let ls = l1 + rest;
    if i < l1.len() {
        assert(ls[i] == l1[i]);
        let s = seq_trim(l1[i]);
        if s.len() == 0 || seq_starts_with(s, "//"@) {
            lemma_process_stops(st, l1, rest, i + 1);
        } else if !seq_starts_with(s, "#[cfg(test)]"@) {
            lemma_process_stops(scan_walk(st, s, (i + 1) as nat, 0, 0), l1, rest, i + 1);
        }
    } else {
        assert(ls[i] == rest[0]);
        reveal_strlit("#[cfg(test)]");
        reveal_strlit("//");
        let s = seq_trim(rest[0]);
        assert(s.subrange(0, 12) == "#[cfg(test)]"@);
        assert(s[0] == s.subrange(0, 12)[0]);
        assert(!seq_starts_with(s, "//"@));
    }
}

proof fn lemma_trim_of_plain(s: Seq<char>)
    requires
        s.len() > 0,
        !crate::text::spec_is_whitespace(s[0]),
        !crate::text::spec_is_whitespace(s.last()),
    ensures
        seq_trim(s) == s,
{
}

/// The first-generation analysis ignores everything from the first
/// `#[cfg(test)]` line on.
#[verifier::spinoff_prover]
pub proof fn law_legacy_stops_at_test_module(a: Seq<char>, b: Seq<char>)
    requires
        a.len() == 0 || a.last() == '\n',
    ensures
        spec_check_source(a + "#[cfg(test)]\n"@ + b) == spec_check_source(a),
{
    let marker = "#[cfg(test)]\n"@;
    reveal_strlit("#[cfg(test)]\n");
    reveal_strlit("#[cfg(test)]");
    assert(a + marker + b =~= a + (marker + b));
    lemma_lines_concat(a, marker + b);
    lemma_lines_concat(marker, b);
    let line = "#[cfg(test)]"@;
    lemma_find_char_from(marker, '\n', 0);
    assert(marker.len() == 13);
    assert(marker[12] == '\n');
    assert forall|j: int| 0 <= j < 12 implies marker[j] != '\n' by {}
    assert(seq_find_char_from(marker, '\n', 0) == Some(12int));
    assert(marker.take(12) =~= line);
    assert(marker.skip(13) =~= Seq::<char>::empty());
    assert(seq_lines(marker.skip(13)) =~= Seq::<Seq<char>>::empty());
    assert(strip_cr(marker.take(12)) == line);
    assert(seq_lines(marker) =~= seq![line]);
    let rest = seq_lines(marker) + seq_lines(b);
    assert(rest[0] == line);
    lemma_trim_of_plain(line);
    assert(line.take(12) =~= line);
    assert(seq_starts_with(seq_trim(rest[0]), "#[cfg(test)]"@));
    lemma_process_stops(initial_scan(), seq_lines(a), rest, 0);
}

impl Scanner {
    fn check_owner_used_legacy(&mut self, code: &[char], line: usize)
        ensures
            final(self)@ == (ScanV {
                errors: old(self)@.errors + owner_used_errors(old(self)@, code@, line as nat),
                ..old(self)@
            }),
            final(self).depth == old(self).depth,
    {
        let ghost st = self@;
        let c = trim(code);
        let lparen = match find_char(c, '(') {
            Some(p) => p,
            None => {
                assert(self@.errors =~= st.errors + Seq::<(nat, Seq<char>)>::empty());
                return;
            },
        };
        proof {
            lemma_find_char_from(c@, '(', 0);
        }
        let head = &c[0..lparen];
        assert(head@ =~= c@.take(lparen as int));
        let fn_name = trim(head);
        if contains_char(fn_name, ' ') || contains_char(fn_name, '=') || fn_name.len() == 0 {
            assert(self@.errors =~= st.errors + Seq::<(nat, Seq<char>)>::empty());
            return;
        }
        if is_safe_fn(fn_name) {
            assert(self@.errors =~= st.errors + Seq::<(nat, Seq<char>)>::empty());
            return;
        }
        let call = &c[lparen..c.len()];
        assert(call@ =~= c@.skip(lparen as int));
        let args = match extract_paren_body(call) {
            Some(v) => v,
            None => {
                assert(self@.errors =~= st.errors + Seq::<(nat, Seq<char>)>::empty());
                return;
            },
        };
        self.report_moved_args(args, line);
    }

    fn record_var_depth(&mut self, var: &[char])
        ensures
            final(self)@ == (ScanV { vars: old(self)@.vars.insert(var@, old(self)@.depth), ..old(self)@ }),
            final(self).depth == old(self).depth,
            final(self).owners@ == old(self).owners@,
            final(self).borrows@ == old(self).borrows@,
    {
        let d = self.depth;
        let ghost l = self.var_depth@;
        self.var_depth.push((slice_to_vec_chars(var), d));
        assert(self.var_depth@.drop_last() =~= l);
        assert(crate::scanner::depth_map(self.var_depth@) =~= crate::scanner::depth_map(l).insert(
            var@,
            d as nat,
        ));
    }

    /// Analyses one statement at `line` the first-generation way.
    pub fn analyze_segment_legacy(&mut self, code: &[char], line: usize)
        ensures
            final(self)@ == spec_analyze_segment(old(self)@, code@, line as nat),
            final(self).depth == old(self).depth,
    {
        if let Some((var, expr, label)) = parse_lt_let(code) {
            let d = self.depth;
            self.record_var_depth(var.as_slice());
            if is_pointer_expr(expr.as_slice()) {
                let ghost before = self@.borrows;
                let ghost decl = DeclV { var: var@, label: label@, line: line as nat, depth: d as nat };
                self.borrows.push(Borrow { var, label, line, depth: d });
                assert(self@.borrows =~= before.push(decl));
            } else {
                let ghost before = self@.owners;
                let ghost decl = DeclV { var: var@, label: label@, line: line as nat, depth: d as nat };
                self.owners.push(Owner { var, label, line, depth: d });
                assert(self@.owners =~= before.push(decl));
            }
            return;
        }
        if let Some(var) = parse_let(code) {
            self.record_var_depth(var.as_slice());
            return;
        }
        if let Some((var, _expr, label)) = parse_lt_assign(code) {
            let decl_d = match self.declared_depth(var.as_slice()) {
                Some(d) => d,
                None => self.depth,
            };
            let eff_d = if decl_d < self.depth {
                decl_d
            } else {
                self.depth
            };
            let ghost before = self@.borrows;
            let ghost decl = DeclV { var: var@, label: label@, line: line as nat, depth: eff_d as nat };
            self.borrows.push(Borrow { var, label, line, depth: eff_d });
            assert(self@.borrows =~= before.push(decl));
            return;
        }
        if let Some(var) = parse_drop(code) {
            self.check_drop(var.as_slice(), line);
            return;
        }
        self.check_owner_used_legacy(code, line);
    }

    fn flush_segment_legacy(&mut self, seg_raw: &[char], line: usize)
        ensures
            final(self)@ == flush_segment(old(self)@, seg_raw@, line as nat),
            final(self).depth == old(self).depth,
    {
        let seg = trim(seg_raw);
        if seg.len() > 0 {
            self.analyze_segment_legacy(seg, line);
        }
    }

    /// Walks the (trimmed) line `s` the first-generation way.
    fn scan_line_legacy(&mut self, line_num: usize, s: &[char])
        requires
            old(self).depth + s@.len() <= usize::MAX,
        ensures
            final(self)@ == scan_walk(old(self)@, s@, line_num as nat, 0, 0),
            final(self).depth <= old(self).depth + s@.len(),
    {
        let ghost st0 = self@;
        let ghost d0 = self.depth;
        let mut seg_start: usize = 0;
        let mut j: usize = 0;
        while j < s.len()
            invariant
                d0 == old(self).depth,
                st0 == old(self)@,
                d0 + s@.len() <= usize::MAX,
                seg_start <= j <= s@.len(),
                self.depth <= d0 + j,
                scan_walk(st0, s@, line_num as nat, 0, 0) == scan_walk(
                    self@,
                    s@,
                    line_num as nat,
                    j as int,
                    seg_start as int,
                ),
            decreases s@.len() - j,
        {
            let ch = s[j];
            if ch == '}' || ch == '{' {
                let seg = &s[seg_start..j];
                self.flush_segment_legacy(seg, line_num);
                if ch == '}' {
                    self.exit_scope(line_num);
                    self.depth = self.depth.saturating_sub(1);
                } else {
                    self.depth = self.depth + 1;
                }
                seg_start = j + 1;
            }
            j += 1;
        }
        let seg = &s[seg_start..s.len()];
        self.flush_segment_legacy(seg, line_num);
    }
}

/// The lifetime violations in a source text, found the first-generation
/// way, each with its line (counting from 1) and its message.
pub fn check_source(src: &str) -> (r: Vec<(usize, String)>)
    requires
        src@.len() < usize::MAX,
    ensures
        strings_view(r@) == spec_check_source(src@),
{
    let chars = str_chars(src);
    let all = lines(&chars);
    let ghost ls = views(all@);
    proof {
        lemma_lines_len(src@);
    }
    let mut sc = Scanner::new();
    let mut i: usize = 0;
    assert(ls.take(0) =~= Seq::<Seq<char>>::empty());
    while i < all.len()
        invariant
            i <= all@.len(),
            ls == views(all@),
            ls == seq_lines(src@),
            total_len(ls) + ls.len() <= src@.len() + 1,
            src@.len() < usize::MAX,
            sc.depth <= total_len(ls.take(i as int)),
            process_from(initial_scan(), ls, 0) == process_from(sc@, ls, i as int),
        ensures
            process_from(initial_scan(), ls, 0) == sc@,
        decreases all@.len() - i,
    {
        proof {
            lemma_total_len_take(ls, i as int);
            lemma_trim_len(ls[i as int]);
        }
        let line_num = i + 1;
        let s = trim(all[i].as_slice());
        if s.len() == 0 || starts_with_str(s, "//") {
            i += 1;
            continue;
        }
        if starts_with_str(s, "#[cfg(test)]") {
            break;
        }
        sc.scan_line_legacy(line_num, s);
        i += 1;
    }
    let mut r: Vec<(usize, String)> = Vec::new();
    let mut k: usize = 0;
    let ghost errs = sc@.errors;
    assert(strings_view(r@) =~= errs.take(0));
    while k < sc.errors.len()
        invariant
            k <= sc.errors@.len(),
            errs == errors_view(sc.errors@),
            strings_view(r@) == errs.take(k as int),
        decreases sc.errors@.len() - k,
    {
        let ghost before = strings_view(r@);
        let line = sc.errors[k].0;
        let msg = chars_to_string(sc.errors[k].1.as_slice());
        r.push((line, msg));
        assert(strings_view(r@) =~= before.push((line as nat, sc.errors@[k as int].1@)));
        assert(errs.take(k + 1) =~= errs.take(k as int).push((line as nat, sc.errors@[k as int].1@)));
        k += 1;
    }
    assert(errs.take(k as int) =~= errs);
    r
}

} // verus!
